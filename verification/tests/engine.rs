use cog_os::fs::{FS, FsError, BLOCK_SIZE, MAX_FILES, MAX_FILE_BLOCKS, TOTAL_BLOCKS};

/// Count the set bits of the free-block bitmap: the number of free blocks.
fn free_bits(fs: &FS) -> u32 {
    let mut n: u32 = 0;
    for byte in fs.superblock.free_block_bitmap.iter() {
        n += byte.count_ones();
    }
    n
}

#[test]
fn fresh_engine_geometry() {
    let fs = FS::new();
    assert_eq!(fs.superblock.magic, 0xF5F0F0F5);
    assert_eq!(fs.superblock.block_size as usize, BLOCK_SIZE);
    assert_eq!(fs.superblock.max_files as usize, MAX_FILES);
    assert_eq!(fs.superblock.total_blocks as usize, TOTAL_BLOCKS);
    assert_eq!(fs.superblock.free_block_bitmap.len(), 64);
    assert!(fs.superblock.free_block_bitmap.iter().all(|b| *b == 0xFF));
    assert_eq!(free_bits(&fs), 512);
    assert_eq!(fs.dir.len(), MAX_FILES);
    assert_eq!(fs.data.len(), TOTAL_BLOCKS);
}

#[test]
fn scenario_create_write_read_delete() {
    let mut fs = FS::new();
    assert!(fs.create("a.txt").is_ok());
    assert!(fs.write("a.txt", b"hello").is_ok());
    let mut buf = vec![0u8; 4096];
    assert_eq!(fs.read("a.txt", &mut buf), Ok(5));
    assert_eq!(&buf[..5], b"hello");
    assert_eq!(fs.create("a.txt"), Err(FsError::AlreadyExists));
    assert!(fs.delete("a.txt").is_ok());
    assert_eq!(fs.read("a.txt", &mut buf), Err(FsError::NotFound));
}

#[test]
fn created_file_reads_empty() {
    let mut fs = FS::new();
    assert!(fs.create("empty").is_ok());
    let mut buf = vec![7u8; 64];
    assert_eq!(fs.read("empty", &mut buf), Ok(0));
    // the buffer is untouched
    assert!(buf.iter().all(|b| *b == 7));
    let mut none: Vec<u8> = Vec::new();
    assert_eq!(fs.read("empty", &mut none), Ok(0));
}

#[test]
fn round_trip_small() {
    let mut fs = FS::new();
    assert!(fs.create("f").is_ok());
    let data: Vec<u8> = (0..200u32).map(|i| (i % 251) as u8).collect();
    assert!(fs.write("f", &data).is_ok());
    let mut buf = vec![0u8; 200];
    assert_eq!(fs.read("f", &mut buf), Ok(200));
    assert_eq!(buf, data);
}

#[test]
fn round_trip_block_boundaries() {
    let mut fs = FS::new();
    assert!(fs.create("f").is_ok());
    for len in [0usize, 1, 511, 512, 513, 1024, 4097] {
        let data: Vec<u8> = (0..len).map(|i| (i % 251) as u8).collect();
        assert!(fs.write("f", &data).is_ok());
        let mut buf = vec![0xAAu8; len + 3];
        assert_eq!(fs.read("f", &mut buf), Ok(len));
        assert_eq!(&buf[..len], &data[..]);
        // bytes past the file's size are untouched
        assert!(buf[len..].iter().all(|b| *b == 0xAA));
    }
}

#[test]
fn round_trip_largest_file() {
    let mut fs = FS::new();
    assert!(fs.create("big").is_ok());
    let len = MAX_FILE_BLOCKS * BLOCK_SIZE;
    let data: Vec<u8> = (0..len).map(|i| (i % 239) as u8).collect();
    assert!(fs.write("big", &data).is_ok());
    let mut buf = vec![0u8; len];
    assert_eq!(fs.read("big", &mut buf), Ok(len));
    assert_eq!(buf, data);
}

#[test]
fn write_too_large_fails_and_preserves_content() {
    let mut fs = FS::new();
    assert!(fs.create("f").is_ok());
    assert!(fs.write("f", b"keep me").is_ok());
    let huge = vec![1u8; MAX_FILE_BLOCKS * BLOCK_SIZE + 1];
    assert_eq!(fs.write("f", &huge), Err(FsError::FileTooLarge));
    // the old content is untouched on this failure path
    let mut buf = vec![0u8; 16];
    assert_eq!(fs.read("f", &mut buf), Ok(7));
    assert_eq!(&buf[..7], b"keep me");
}

#[test]
fn overwrite_replaces_content() {
    let mut fs = FS::new();
    assert!(fs.create("f").is_ok());
    assert!(fs.write("f", &vec![9u8; 2000]).is_ok());
    assert!(fs.write("f", b"short").is_ok());
    let mut buf = vec![0u8; 64];
    assert_eq!(fs.read("f", &mut buf), Ok(5));
    assert_eq!(&buf[..5], b"short");
}

#[test]
fn partial_read_into_short_buffer() {
    let mut fs = FS::new();
    assert!(fs.create("f").is_ok());
    let data: Vec<u8> = (0..1000u32).map(|i| (i % 241) as u8).collect();
    assert!(fs.write("f", &data).is_ok());
    let mut buf = vec![0u8; 600];
    assert_eq!(fs.read("f", &mut buf), Ok(600));
    assert_eq!(&buf[..], &data[..600]);
}

#[test]
fn create_name_length_limits() {
    let mut fs = FS::new();
    assert_eq!(fs.create(""), Err(FsError::NameTooLong));
    assert_eq!(fs.create("aaaaaaaaaaaaaaaaa"), Err(FsError::NameTooLong));
    assert!(fs.create("aaaaaaaaaaaaaaaa").is_ok());
    assert_eq!(fs.create("aaaaaaaaaaaaaaaa"), Err(FsError::AlreadyExists));
    assert!(fs.create("b").is_ok());
}

#[test]
fn create_fills_all_slots_then_no_space() {
    let mut fs = FS::new();
    for i in 0..MAX_FILES {
        assert!(fs.create(&format!("file{}", i)).is_ok());
    }
    assert_eq!(fs.create("one-more"), Err(FsError::NoSpace));
    // deleting frees a slot for reuse
    assert!(fs.delete("file7").is_ok());
    assert!(fs.create("one-more").is_ok());
}

#[test]
fn first_free_slot_is_reused() {
    let mut fs = FS::new();
    assert!(fs.create("a").is_ok());
    assert!(fs.create("b").is_ok());
    assert!(fs.create("c").is_ok());
    assert!(fs.delete("b").is_ok());
    assert!(fs.create("d").is_ok());
    let rows = fs.list();
    let names: Vec<&[u8]> = rows.iter().map(|r| r.name.as_slice()).collect();
    assert_eq!(names, vec![b"a" as &[u8], b"d", b"c"]);
}

#[test]
fn delete_missing_fails() {
    let mut fs = FS::new();
    assert_eq!(fs.delete("nope"), Err(FsError::NotFound));
    let mut buf = vec![0u8; 8];
    assert_eq!(fs.read("nope", &mut buf), Err(FsError::NotFound));
    assert_eq!(fs.write("nope", b"x"), Err(FsError::NotFound));
}

#[test]
fn delete_restores_free_count() {
    let mut fs = FS::new();
    let before = free_bits(&fs);
    assert!(fs.create("cycle").is_ok());
    assert!(fs.write("cycle", &vec![3u8; 3000]).is_ok());
    assert_eq!(free_bits(&fs), before - 6);
    assert!(fs.delete("cycle").is_ok());
    assert_eq!(free_bits(&fs), before);
}

#[test]
fn exhausting_blocks_then_freeing_one() {
    let mut fs = FS::new();
    // 3 full files (128 blocks each) + 127 blocks + 1 block = 512 blocks
    for name in ["f1", "f2", "f3"] {
        assert!(fs.create(name).is_ok());
        assert!(fs.write(name, &vec![1u8; MAX_FILE_BLOCKS * BLOCK_SIZE]).is_ok());
    }
    assert!(fs.create("f4").is_ok());
    assert!(fs.write("f4", &vec![2u8; 127 * BLOCK_SIZE]).is_ok());
    assert!(fs.create("tiny").is_ok());
    assert!(fs.write("tiny", b"x").is_ok());
    assert_eq!(free_bits(&fs), 0);
    // the pool is exhausted: the next allocation fails
    assert!(fs.create("extra").is_ok());
    assert_eq!(fs.write("extra", b"y"), Err(FsError::NoSpace));
    // freeing exactly one block allows exactly one more allocation
    assert!(fs.delete("tiny").is_ok());
    assert_eq!(free_bits(&fs), 1);
    assert!(fs.write("extra", b"y").is_ok());
    assert!(fs.create("extra2").is_ok());
    assert_eq!(fs.write("extra2", b"z"), Err(FsError::NoSpace));
}

#[test]
fn rewrite_within_owned_blocks_needs_no_new_space() {
    let mut fs = FS::new();
    assert!(fs.create("f1").is_ok());
    assert!(fs.create("f2").is_ok());
    assert!(fs.create("f3").is_ok());
    assert!(fs.create("f4").is_ok());
    for name in ["f1", "f2", "f3", "f4"] {
        assert!(fs.write(name, &vec![1u8; MAX_FILE_BLOCKS * BLOCK_SIZE]).is_ok());
    }
    assert_eq!(free_bits(&fs), 0);
    // the entry's own blocks count toward the space check
    assert!(fs.write("f4", &vec![2u8; MAX_FILE_BLOCKS * BLOCK_SIZE]).is_ok());
    assert!(fs.write("f4", b"small").is_ok());
    assert_eq!(free_bits(&fs), 127);
}

#[test]
fn list_enumerates_active_slots_in_order() {
    let mut fs = FS::new();
    assert!(fs.list().is_empty());
    assert!(fs.create("alpha").is_ok());
    assert!(fs.create("beta").is_ok());
    assert!(fs.write("alpha", &vec![0u8; 700]).is_ok());
    assert!(fs.write("beta", b"hi").is_ok());
    let rows = fs.list();
    assert_eq!(rows.len(), 2);
    assert_eq!(rows[0].name, b"alpha".to_vec());
    assert_eq!(rows[0].size, 700);
    assert_eq!(rows[1].name, b"beta".to_vec());
    assert_eq!(rows[1].size, 2);
    assert!(fs.delete("alpha").is_ok());
    let rows = fs.list();
    assert_eq!(rows.len(), 1);
    assert_eq!(rows[0].name, b"beta".to_vec());
}

#[test]
fn name_with_trailing_zero_byte_is_trimmed_when_stored() {
    let mut fs = FS::new();
    // the stored name is zero-padded, so a trailing zero byte in the
    // requested name is indistinguishable from padding
    assert!(fs.create("a\u{0}").is_ok());
    let mut buf = vec![0u8; 8];
    assert_eq!(fs.read("a\u{0}", &mut buf), Err(FsError::NotFound));
    assert_eq!(fs.read("a", &mut buf), Ok(0));
}

#[test]
fn error_messages() {
    assert_eq!(FsError::NotFound.message(), "Not found");
    assert_eq!(FsError::AlreadyExists.message(), "Already exists");
    assert_eq!(FsError::NoSpace.message(), "No space left");
    assert_eq!(FsError::NameTooLong.message(), "Name too long");
    assert_eq!(FsError::FileTooLarge.message(), "File too large");
    assert_eq!(FsError::IoError.message(), "IO error");
    assert_eq!(FsError::InvalidArg.message(), "Invalid argument");
}
