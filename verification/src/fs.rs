//! The filesystem engine: a superblock with a free-space bitmap, a
//! fixed-size directory table, and block-granular read/write logic over a
//! bounded in-memory block region.
//!
//! Geometry is fixed: `TOTAL_BLOCKS` blocks of `BLOCK_SIZE` bytes, at most
//! `MAX_FILES` directory slots, and at most `MAX_FILE_BLOCKS` blocks per
//! file. A slot is free exactly when the first byte of its name buffer is
//! zero; that is the only free/active discriminant.

use vstd::prelude::*;
use vstd::string::StringSliceAdditionalSpecFns;

verus! {

/// Bytes in one storage block.
pub const BLOCK_SIZE: usize = 512;

/// Directory table capacity: the maximum number of files.
pub const MAX_FILES: usize = 32;

/// Width of the fixed, zero-padded name buffer of a directory entry.
pub const FILENAME_LEN: usize = 16;

/// Capacity of one entry's block list, bounding the maximum file size.
pub const MAX_FILE_BLOCKS: usize = 128;

/// Total addressable blocks in the block region.
pub const TOTAL_BLOCKS: usize = 512;

/// Bytes in the free-block bitmap: one bit per block.
pub const BITMAP_LEN: usize = 64;

/// Format identity stamped into the superblock.
pub const FS_MAGIC: u32 = 0xF5F0F0F5;

/// Every way a public engine operation can fail. `IoError` and
/// `InvalidArg` are reserved for device-backed variants; the in-memory
/// engine never raises them.
#[derive(Clone, Copy, Debug, PartialEq, Eq, Structural)]
pub enum FsError {
    NotFound,
    AlreadyExists,
    NoSpace,
    NameTooLong,
    FileTooLarge,
    IoError,
    InvalidArg,
}

impl FsError {
    /// A short human-readable description, in place of a `Display` impl.
    pub fn message(&self) -> &'static str {
        match self {
            FsError::NotFound => "Not found",
            FsError::AlreadyExists => "Already exists",
            FsError::NoSpace => "No space left",
            FsError::NameTooLong => "Name too long",
            FsError::FileTooLarge => "File too large",
            FsError::IoError => "IO error",
            FsError::InvalidArg => "Invalid argument",
        }
    }
}

/// One directory slot: a fixed-width zero-padded name, the file size in
/// bytes, the count of owned blocks, and the owned block indices (only the
/// first `blocks` entries of `block_list` are meaningful).
pub struct DirEntry {
    pub name: Vec<u8>,
    pub size: u32,
    pub blocks: u32,
    pub block_list: Vec<u32>,
}

/// Fixed-layout header: geometry constants plus the free-block bitmap
/// (one bit per block, 1 = free, 0 = allocated).
pub struct Superblock {
    pub magic: u32,
    pub block_size: u32,
    pub max_files: u32,
    pub total_blocks: u32,
    pub free_block_bitmap: Vec<u8>,
}

/// The engine: sole owner of the superblock, the directory table and the
/// block region.
pub struct FS {
    pub superblock: Superblock,
    pub dir: Vec<DirEntry>,
    pub data: Vec<Vec<u8>>,
}

/// One row of a directory listing: a trimmed file name and the file's
/// size in bytes.
pub struct FileInfo {
    pub name: Vec<u8>,
    pub size: u32,
}

impl View for FileInfo {
    type V = (Seq<u8>, nat);

    open spec fn view(&self) -> (Seq<u8>, nat) {
        (self.name@, self.size as nat)
    }
}

/// The mathematical model of one directory slot. `block_list` holds
/// exactly the owned block indices, in order.
pub ghost struct EntryView {
    pub name: Seq<u8>,
    pub size: nat,
    pub block_list: Seq<u32>,
}

/// The mathematical model of the whole engine: a free flag per block, the
/// directory slots, and the raw bytes of every block.
pub ghost struct FsView {
    pub free: Seq<bool>,
    pub dir: Seq<EntryView>,
    pub data: Seq<Seq<u8>>,
}

/// Bit `k` of `x`, with bit 0 the least significant.
pub open spec fn nth_bit(x: u8, k: u8) -> bool {
    (x >> k) & 1 == 1
}

/// The free flags encoded by a bitmap byte sequence: block `b` is free
/// exactly when bit `b % 8` of byte `b / 8` is set.
pub open spec fn bitmap_free_flags(bitmap: Seq<u8>) -> Seq<bool> {
    Seq::new((TOTAL_BLOCKS) as nat, |b: int| nth_bit(bitmap[b / 8], (b % 8) as u8))
}

impl View for DirEntry {
    type V = EntryView;

    open spec fn view(&self) -> EntryView {
        EntryView {
            name: self.name@,
            size: self.size as nat,
            block_list: self.block_list@.take(self.blocks as int),
        }
    }
}

impl View for FS {
    type V = FsView;

    open spec fn view(&self) -> FsView {
        FsView {
            free: bitmap_free_flags(self.superblock.free_block_bitmap@),
            dir: Seq::new(self.dir@.len(), |i: int| self.dir@[i]@),
            data: self.data.deep_view(),
        }
    }
}

/// A name buffer with its trailing zero padding removed.
pub open spec fn trim_name(s: Seq<u8>) -> Seq<u8>
    decreases s.len(),
{
    if s.len() > 0 && s.last() == 0 {
        trim_name(s.drop_last())
    } else {
        s
    }
}

/// A slot is active exactly when the first byte of its name is nonzero.
pub open spec fn slot_active(e: EntryView) -> bool {
    e.name.len() == FILENAME_LEN && e.name[0] != 0
}

/// An active slot answers to `nm` when its trimmed stored name equals `nm`.
pub open spec fn name_matches(e: EntryView, nm: Seq<u8>) -> bool {
    slot_active(e) && trim_name(e.name) == nm
}

/// The least slot index at or after `i` that answers to `nm`, or
/// `dir.len()` if none does. Lookups always use the first match.
pub open spec fn first_match_from(dir: Seq<EntryView>, nm: Seq<u8>, i: int) -> int
    decreases dir.len() - i,
{
    if i < 0 || i >= dir.len() {
        dir.len() as int
    } else if name_matches(dir[i], nm) {
        i
    } else {
        first_match_from(dir, nm, i + 1)
    }
}

/// The slot holding the file named `nm`, or `MAX_FILES` if absent.
pub open spec fn file_slot(v: FsView, nm: Seq<u8>) -> int {
    first_match_from(v.dir, nm, 0)
}

/// Whether some active slot answers to `nm`.
pub open spec fn has_file(v: FsView, nm: Seq<u8>) -> bool {
    file_slot(v, nm) < v.dir.len()
}

/// The least free slot index at or after `i`, or `dir.len()` if none.
/// `create` always claims the first free slot.
pub open spec fn first_free_from(dir: Seq<EntryView>, i: int) -> int
    decreases dir.len() - i,
{
    if i < 0 || i >= dir.len() {
        dir.len() as int
    } else if !slot_active(dir[i]) {
        i
    } else {
        first_free_from(dir, i + 1)
    }
}

/// How many of the first `n` blocks are free.
pub open spec fn count_free_upto(free: Seq<bool>, n: int) -> int
    decreases n,
{
    if n <= 0 {
        0
    } else {
        count_free_upto(free, n - 1) + if free[n - 1] {
            1int
        } else {
            0int
        }
    }
}

/// The number of free blocks in the pool.
pub open spec fn free_count(v: FsView) -> int {
    count_free_upto(v.free, TOTAL_BLOCKS as int)
}

/// The bytes of the file held by entry `e`: its size-many bytes, read
/// through the owned block list in order.
pub open spec fn entry_content(e: EntryView, data: Seq<Seq<u8>>) -> Seq<u8> {
    Seq::new(e.size, |j: int| data[e.block_list[j / (BLOCK_SIZE as int)] as int][j % (BLOCK_SIZE as int)])
}

/// The bytes of the file named `nm`.
pub open spec fn file_content(v: FsView, nm: Seq<u8>) -> Seq<u8> {
    entry_content(v.dir[file_slot(v, nm)], v.data)
}

/// The directory listing restricted to the first `n` slots: one
/// `(trimmed name, size)` pair per active slot, in slot order.
pub open spec fn listing_upto(dir: Seq<EntryView>, n: int) -> Seq<(Seq<u8>, nat)>
    decreases n,
{
    if n <= 0 {
        Seq::empty()
    } else {
        listing_upto(dir, n - 1) + if slot_active(dir[n - 1]) {
            seq![(trim_name(dir[n - 1].name), dir[n - 1].size)]
        } else {
            Seq::empty()
        }
    }
}

/// The full directory listing: only active slots, in ascending slot
/// order, each with its current size.
pub open spec fn listing(v: FsView) -> Seq<(Seq<u8>, nat)> {
    listing_upto(v.dir, v.dir.len() as int)
}

/// `nm` padded with zero bytes to the fixed name-buffer width.
pub open spec fn padded_name(nm: Seq<u8>) -> Seq<u8> {
    nm + Seq::new((FILENAME_LEN - nm.len()) as nat, |i: int| 0u8)
}

/// The model of a fully cleared slot.
pub open spec fn cleared_entry() -> EntryView {
    EntryView { name: Seq::new(FILENAME_LEN as nat, |i: int| 0u8), size: 0, block_list: Seq::empty() }
}

/// What a successful `create` of `nm` does to the model: the first free
/// slot now carries the zero-padded name with size zero and no blocks;
/// nothing else changes.
pub open spec fn create_ok_post(v: FsView, v2: FsView, nm: Seq<u8>) -> bool {
    let j = first_free_from(v.dir, 0);
    &&& 1 <= nm.len() <= FILENAME_LEN
    &&& !has_file(v, nm)
    &&& 0 <= j < v.dir.len()
    &&& v2.dir == v.dir.update(
        j,
        (EntryView { name: padded_name(nm), size: 0, block_list: Seq::empty() }),
    )
    &&& v2.free == v.free
    &&& v2.data == v.data
}

/// What a successful `delete` of `nm` does to the model: the first
/// matching slot is fully cleared, every block it owned is returned to
/// the free pool, and the free count rises by exactly the owned count.
pub open spec fn delete_ok_post(v: FsView, v2: FsView, nm: Seq<u8>) -> bool {
    let i = file_slot(v, nm);
    &&& has_file(v, nm)
    &&& v2.dir == v.dir.update(i, cleared_entry())
    &&& v2.free == Seq::new(
        v.free.len(),
        |b: int| v.free[b] || v.dir[i].block_list.contains(b as u32),
    )
    &&& v2.data == v.data
    &&& free_count(v2) == free_count(v) + v.dir[i].block_list.len()
}

/// How many blocks a file of `len` bytes needs: `len / BLOCK_SIZE`,
/// rounded up.
pub open spec fn blocks_needed(len: nat) -> int {
    (len + BLOCK_SIZE - 1) as int / (BLOCK_SIZE as int)
}

/// Block `k` of a byte sequence laid out block by block: the `k`-th
/// `BLOCK_SIZE`-byte chunk, zero-padded past the end of the data.
pub open spec fn block_of(data: Seq<u8>, k: int) -> Seq<u8> {
    Seq::new(
        BLOCK_SIZE as nat,
        |j: int|
            if k * BLOCK_SIZE + j < data.len() {
                data[k * BLOCK_SIZE + j]
            } else {
                0u8
            },
    )
}

/// What a successful `write` of `data` to the file named `nm` does to
/// the model: the first matching slot keeps its name, records the new
/// size and exactly the blocks needed, and its content reads back as
/// `data`; every other slot and its content are untouched; the free
/// count moves by the difference between released and claimed blocks.
pub open spec fn write_ok_post(v: FsView, v2: FsView, nm: Seq<u8>, data: Seq<u8>) -> bool {
    let i = file_slot(v, nm);
    &&& has_file(v, nm)
    &&& data.len() <= MAX_FILE_BLOCKS * BLOCK_SIZE
    &&& v2.dir.len() == v.dir.len()
    &&& v2.data.len() == v.data.len()
    &&& v2.free.len() == v.free.len()
    &&& v2.dir[i].name == v.dir[i].name
    &&& v2.dir[i].size == data.len()
    &&& v2.dir[i].block_list.len() == blocks_needed(data.len())
    &&& entry_content(v2.dir[i], v2.data) == data
    &&& forall|j: int|
        0 <= j < v.dir.len() && j != i ==> #[trigger] v2.dir[j] == v.dir[j] && entry_content(
            v2.dir[j],
            v2.data,
        ) == entry_content(v.dir[j], v.data)
    &&& free_count(v2) == free_count(v) + v.dir[i].block_list.len() - blocks_needed(data.len())
}

/// Slot `i` owns block `b`.
pub open spec fn owns_block(v: FsView, i: int, b: u32) -> bool {
    0 <= i < v.dir.len() && slot_active(v.dir[i]) && v.dir[i].block_list.contains(b)
}

/// Every owned block index is in range and marked allocated in the pool.
pub open spec fn entry_blocks_ok(v: FsView, e: EntryView) -> bool {
    forall|k: int|
        0 <= k < e.block_list.len() ==> (#[trigger] e.block_list[k]) < TOTAL_BLOCKS
            && !v.free[e.block_list[k] as int]
}

/// The per-slot invariant.
pub open spec fn entry_inv(v: FsView, e: EntryView) -> bool {
    &&& e.name.len() == FILENAME_LEN
    &&& e.block_list.len() <= MAX_FILE_BLOCKS
    &&& e.size <= e.block_list.len() * BLOCK_SIZE
    &&& !slot_active(e) ==> e.size == 0 && e.block_list.len() == 0
    &&& e.block_list.no_duplicates()
    &&& entry_blocks_ok(v, e)
}

/// The model-level invariant: geometry, per-slot well-formedness, and
/// disjoint block ownership (no block is double-owned).
pub open spec fn view_inv(v: FsView) -> bool {
    &&& v.free.len() == TOTAL_BLOCKS
    &&& v.dir.len() == MAX_FILES
    &&& v.data.len() == TOTAL_BLOCKS
    &&& forall|b: int| 0 <= b < TOTAL_BLOCKS ==> (#[trigger] v.data[b]).len() == BLOCK_SIZE
    &&& forall|i: int| 0 <= i < MAX_FILES ==> entry_inv(v, #[trigger] v.dir[i])
    &&& forall|i: int, j: int, b: u32| owns_block(v, i, b) && owns_block(v, j, b) ==> i == j
}

impl DirEntry {
    /// Structural well-formedness of the executable record.
    pub open spec fn wf(self) -> bool {
        &&& self.name@.len() == FILENAME_LEN
        &&& self.block_list@.len() == MAX_FILE_BLOCKS
        &&& self.blocks <= MAX_FILE_BLOCKS
        &&& self.size as int <= self.blocks as int * BLOCK_SIZE as int
        &&& self.name@[0] == 0 ==> self.blocks == 0 && self.size == 0
    }
}

impl Superblock {
    /// The superblock carries the fixed geometry and a bitmap byte per
    /// eight blocks.
    pub open spec fn wf(self) -> bool {
        &&& self.magic == FS_MAGIC
        &&& self.block_size == BLOCK_SIZE as u32
        &&& self.max_files == MAX_FILES as u32
        &&& self.total_blocks == TOTAL_BLOCKS as u32
        &&& self.free_block_bitmap@.len() == BITMAP_LEN
    }
}

impl FS {
    /// Well-formedness of the whole engine: structural bounds on the
    /// executable records plus the model-level invariant. Established by
    /// `new` and preserved by every operation.
    pub open spec fn wf(self) -> bool {
        &&& self.superblock.wf()
        &&& self.dir@.len() == MAX_FILES
        &&& forall|i: int| 0 <= i < MAX_FILES ==> (#[trigger] self.dir@[i]).wf()
        &&& self.data@.len() == TOTAL_BLOCKS
        &&& forall|b: int| 0 <= b < TOTAL_BLOCKS ==> (#[trigger] self.data@[b])@.len() == BLOCK_SIZE
        &&& view_inv(self@)
    }
}

/// A vector of `n` copies of `val`.
fn filled_bytes(n: usize, val: u8) -> (r: Vec<u8>)
    ensures
        r@ == Seq::new(n as nat, |i: int| val),
{
    let mut r: Vec<u8> = Vec::new();
    for k in 0..n
        invariant
            r@ =~= Seq::new(k as nat, |i: int| val),
    {
        r.push(val);
    }
    proof {
        assert(r@ =~= Seq::new(n as nat, |i: int| val));
    }
    r
}

impl Default for DirEntry {
    /// A fully cleared, free slot.
    fn default() -> (r: DirEntry)
        ensures
            r.wf(),
            r@ == cleared_entry(),
            r.name@ == Seq::new(FILENAME_LEN as nat, |i: int| 0u8),
            r.block_list@ == Seq::new(MAX_FILE_BLOCKS as nat, |i: int| 0u32),
    {
        let name = filled_bytes(FILENAME_LEN, 0);
        let mut block_list: Vec<u32> = Vec::new();
        for k in 0..MAX_FILE_BLOCKS
            invariant
                block_list@ =~= Seq::new(k as nat, |i: int| 0u32),
        {
            block_list.push(0);
        }
        let r = DirEntry { name, size: 0, blocks: 0, block_list };
        proof {
            assert(r.block_list@ =~= Seq::new(MAX_FILE_BLOCKS as nat, |i: int| 0u32));
            assert(r@.block_list =~= cleared_entry().block_list);
            assert(r@ =~= cleared_entry());
        }
        r
    }
}

impl Default for Superblock {
    /// A fresh superblock: geometry constants, and every block free.
    fn default() -> (r: Superblock)
        ensures
            r.wf(),
            bitmap_free_flags(r.free_block_bitmap@) == Seq::new(TOTAL_BLOCKS as nat, |b: int| true),
    {
        let free_block_bitmap = filled_bytes(BITMAP_LEN, 0xFF);
        let r = Superblock {
            magic: FS_MAGIC,
            block_size: BLOCK_SIZE as u32,
            max_files: MAX_FILES as u32,
            total_blocks: TOTAL_BLOCKS as u32,
            free_block_bitmap,
        };
        proof {
            assert forall|b: int| 0 <= b < TOTAL_BLOCKS implies bitmap_free_flags(
                r.free_block_bitmap@,
            )[b] == true by {
                assert(r.free_block_bitmap@[b / 8] == 0xFFu8);
                let k = (b % 8) as u8;
                assert(nth_bit(0xFFu8, k)) by (bit_vector)
                    requires
                        k < 8,
                ;
            }
            assert(bitmap_free_flags(r.free_block_bitmap@) =~= Seq::new(
                TOTAL_BLOCKS as nat,
                |b: int| true,
            ));
        }
        r
    }
}

impl FS {
    /// A freshly formatted engine: every block free, every slot cleared,
    /// every data byte zero.
    pub fn new() -> (r: FS)
        ensures
            r.wf(),
            r@.free =~= Seq::new(TOTAL_BLOCKS as nat, |b: int| true),
            r@.dir =~= Seq::new(MAX_FILES as nat, |i: int| cleared_entry()),
            r@.data =~= Seq::new(TOTAL_BLOCKS as nat, |b: int| Seq::new(BLOCK_SIZE as nat, |j: int| 0u8)),
            free_count(r@) == TOTAL_BLOCKS,
    {
        let superblock = Superblock::default();
        let mut dir: Vec<DirEntry> = Vec::new();
        for k in 0..MAX_FILES
            invariant
                dir@.len() == k,
                forall|i: int| 0 <= i < k ==> (#[trigger] dir@[i]).wf() && dir@[i]@ == cleared_entry(),
        {
            dir.push(DirEntry::default());
        }
        let mut data: Vec<Vec<u8>> = Vec::new();
        for k in 0..TOTAL_BLOCKS
            invariant
                data@.len() == k,
                forall|b: int|
                    0 <= b < k ==> (#[trigger] data@[b])@ =~= Seq::new(BLOCK_SIZE as nat, |j: int| 0u8),
        {
            data.push(filled_bytes(BLOCK_SIZE, 0));
        }
        let r = FS { superblock, dir, data };
        proof {
            assert(r@.free =~= Seq::new(TOTAL_BLOCKS as nat, |b: int| true));
            assert(r@.dir =~= Seq::new(MAX_FILES as nat, |i: int| cleared_entry()));
            assert forall|b: int| 0 <= b < TOTAL_BLOCKS implies (#[trigger] r@.data[b]) =~= Seq::new(
                BLOCK_SIZE as nat,
                |j: int| 0u8,
            ) by {
                assert(r@.data[b] == r.data@[b]@);
            }
            assert(r@.data =~= Seq::new(
                TOTAL_BLOCKS as nat,
                |b: int| Seq::new(BLOCK_SIZE as nat, |j: int| 0u8),
            ));
            lemma_count_free_all(r@.free, TOTAL_BLOCKS as int);
        }
        r
    }
}

/// Setting bit `k` sets exactly that bit.
proof fn lemma_set_bit(x: u8, k: u8, j: u8)
    by (bit_vector)
    requires
        k < 8,
        j < 8,
    ensures
        nth_bit(x | (1u8 << k), j) == (j == k || nth_bit(x, j)),
{
}

/// Clearing bit `k` clears exactly that bit.
proof fn lemma_clear_bit(x: u8, k: u8, j: u8)
    by (bit_vector)
    requires
        k < 8,
        j < 8,
    ensures
        nth_bit(x & !(1u8 << k), j) == (j != k && nth_bit(x, j)),
{
}

/// Geometry fields of the superblock that no operation may change.
pub open spec fn same_geometry(a: Superblock, b: Superblock) -> bool {
    &&& a.magic == b.magic
    &&& a.block_size == b.block_size
    &&& a.max_files == b.max_files
    &&& a.total_blocks == b.total_blocks
    &&& a.free_block_bitmap@.len() == b.free_block_bitmap@.len()
}

impl FS {
    /// Whether block `b` is free, read straight from the bitmap.
    fn block_is_free(&self, b: usize) -> (r: bool)
        requires
            self.superblock.free_block_bitmap@.len() == BITMAP_LEN,
            b < TOTAL_BLOCKS,
        ensures
            r == self@.free[b as int],
    {
        let byte = self.superblock.free_block_bitmap[b / 8];
        let k: u8 = (b % 8) as u8;
        (byte >> k) & 1 == 1
    }

    /// Mark block `block_num` free again (bit back to 1). Idempotent on an
    /// already-free index: no double-free detection is performed.
    fn free_block(&mut self, block_num: u32)
        requires
            old(self).superblock.free_block_bitmap@.len() == BITMAP_LEN,
            block_num < TOTAL_BLOCKS,
        ensures
            same_geometry(old(self).superblock, final(self).superblock),
            final(self).dir == old(self).dir,
            final(self).data == old(self).data,
            final(self)@.free == old(self)@.free.update(block_num as int, true),
    {
        let byte_idx = (block_num / 8) as usize;
        let k: u8 = (block_num % 8) as u8;
        let nb = self.superblock.free_block_bitmap[byte_idx] | (1u8 << k);
        self.superblock.free_block_bitmap[byte_idx] = nb;
        proof {
            let pre = old(self)@.free;
            let post = self@.free;
            assert forall|b2: int| 0 <= b2 < TOTAL_BLOCKS implies post[b2] == pre.update(
                block_num as int,
                true,
            )[b2] by {
                let ob = old(self).superblock.free_block_bitmap@[b2 / 8];
                if b2 / 8 == byte_idx as int {
                    lemma_set_bit(ob, k, (b2 % 8) as u8);
                }
            }
            assert(post =~= pre.update(block_num as int, true));
        }
    }

    /// Mark block `b` allocated (bit to 0).
    fn mark_allocated(&mut self, b: usize)
        requires
            old(self).superblock.free_block_bitmap@.len() == BITMAP_LEN,
            b < TOTAL_BLOCKS,
        ensures
            same_geometry(old(self).superblock, final(self).superblock),
            final(self).dir == old(self).dir,
            final(self).data == old(self).data,
            final(self)@.free == old(self)@.free.update(b as int, false),
    {
        let byte_idx = b / 8;
        let k: u8 = (b % 8) as u8;
        let nb = self.superblock.free_block_bitmap[byte_idx] & !(1u8 << k);
        self.superblock.free_block_bitmap[byte_idx] = nb;
        proof {
            let pre = old(self)@.free;
            let post = self@.free;
            assert forall|b2: int| 0 <= b2 < TOTAL_BLOCKS implies post[b2] == pre.update(
                b as int,
                false,
            )[b2] by {
                let ob = old(self).superblock.free_block_bitmap@[b2 / 8];
                if b2 / 8 == byte_idx as int {
                    lemma_clear_bit(ob, k, (b2 % 8) as u8);
                }
            }
            assert(post =~= pre.update(b as int, false));
        }
    }

    /// Scan the bitmap in ascending block order and claim the first free
    /// block; fail with `NoSpace` exactly when the pool is exhausted.
    fn alloc_block(&mut self) -> (r: Result<u32, FsError>)
        requires
            old(self).superblock.free_block_bitmap@.len() == BITMAP_LEN,
        ensures
            same_geometry(old(self).superblock, final(self).superblock),
            final(self).dir == old(self).dir,
            final(self).data == old(self).data,
            r is Ok ==> {
                &&& r->Ok_0 < TOTAL_BLOCKS
                &&& old(self)@.free[r->Ok_0 as int]
                &&& forall|b2: int| 0 <= b2 < r->Ok_0 as int ==> !old(self)@.free[b2]
                &&& final(self)@.free == old(self)@.free.update(r->Ok_0 as int, false)
            },
            r is Err ==> {
                &&& r->Err_0 == FsError::NoSpace
                &&& forall|b2: int| 0 <= b2 < TOTAL_BLOCKS ==> !old(self)@.free[b2]
                &&& *final(self) == *old(self)
            },
    {
        let mut b: usize = 0;
        while b < TOTAL_BLOCKS
            invariant
                b <= TOTAL_BLOCKS,
                *self == *old(self),
                self.superblock.free_block_bitmap@.len() == BITMAP_LEN,
                forall|b2: int| 0 <= b2 < b ==> !self@.free[b2],
            decreases TOTAL_BLOCKS - b,
        {
            if self.block_is_free(b) {
                self.mark_allocated(b);
                return Ok(b as u32);
            }
            b += 1;
        }
        Err(FsError::NoSpace)
    }

    /// How many blocks are currently free.
    fn count_free_blocks(&self) -> (r: u32)
        requires
            self.superblock.free_block_bitmap@.len() == BITMAP_LEN,
        ensures
            r as int == free_count(self@),
            r <= TOTAL_BLOCKS,
    {
        let mut cnt: u32 = 0;
        for b in 0..TOTAL_BLOCKS
            invariant
                cnt as int == count_free_upto(self@.free, b as int),
                cnt <= b,
                self.superblock.free_block_bitmap@.len() == BITMAP_LEN,
        {
            if self.block_is_free(b) {
                cnt = cnt + 1;
            }
        }
        cnt
    }
}

/// `first_match_from` lands on the first matching slot at or after `i`.
pub proof fn lemma_first_match_from_props(dir: Seq<EntryView>, nm: Seq<u8>, i: int)
    requires
        0 <= i <= dir.len(),
    ensures
        i <= first_match_from(dir, nm, i) <= dir.len(),
        first_match_from(dir, nm, i) < dir.len() ==> name_matches(
            dir[first_match_from(dir, nm, i)],
            nm,
        ),
        forall|k: int| i <= k < first_match_from(dir, nm, i) ==> !name_matches(dir[k], nm),
    decreases dir.len() - i,
{
    if i < dir.len() && !name_matches(dir[i], nm) {
        lemma_first_match_from_props(dir, nm, i + 1);
    }
}

/// If slot `j` matches and no slot in `[i, j)` does, the first match at
/// or after `i` is exactly `j`.
pub proof fn lemma_first_match_from_is(dir: Seq<EntryView>, nm: Seq<u8>, i: int, j: int)
    requires
        0 <= i <= j < dir.len(),
        name_matches(dir[j], nm),
        forall|k: int| i <= k < j ==> !name_matches(dir[k], nm),
    ensures
        first_match_from(dir, nm, i) == j,
    decreases j - i,
{
    if i < j {
        lemma_first_match_from_is(dir, nm, i + 1, j);
    }
}

/// Trailing zero bytes never survive trimming: padding a name changes
/// nothing about its trimmed form.
pub proof fn lemma_trim_append_zeros(s: Seq<u8>, k: nat)
    ensures
        trim_name(s + Seq::new(k, |i: int| 0u8)) == trim_name(s),
    decreases k,
{
    if k == 0 {
        assert(s + Seq::new(0, |i: int| 0u8) =~= s);
    } else {
        let t = s + Seq::new(k, |i: int| 0u8);
        assert(t.len() > 0 && t.last() == 0);
        assert(t.drop_last() =~= s + Seq::new((k - 1) as nat, |i: int| 0u8));
        lemma_trim_append_zeros(s, (k - 1) as nat);
    }
}

/// A block that is free below `n` forces a positive count below `n`.
pub proof fn lemma_count_free_pos(free: Seq<bool>, b: int, n: int)
    requires
        0 <= b < n <= free.len(),
        free[b],
    ensures
        count_free_upto(free, n) >= 1,
    decreases n,
{
    lemma_count_free_bounds(free, n - 1);
    if b < n - 1 {
        lemma_count_free_pos(free, b, n - 1);
    }
}

/// `first_free_from` lands on the first free slot at or after `i`.
pub proof fn lemma_first_free_from_props(dir: Seq<EntryView>, i: int)
    requires
        0 <= i <= dir.len(),
    ensures
        i <= first_free_from(dir, i) <= dir.len(),
        first_free_from(dir, i) < dir.len() ==> !slot_active(dir[first_free_from(dir, i)]),
        forall|k: int| i <= k < first_free_from(dir, i) ==> slot_active(dir[k]),
    decreases dir.len() - i,
{
    if i < dir.len() && slot_active(dir[i]) {
        lemma_first_free_from_props(dir, i + 1);
    }
}

/// The length of a fixed-width name buffer once its trailing zero
/// padding is dropped.
fn trimmed_len(nv: &Vec<u8>) -> (tl: usize)
    requires
        nv@.len() == FILENAME_LEN,
    ensures
        tl <= FILENAME_LEN,
        trim_name(nv@) == nv@.take(tl as int),
{
    let mut tl: usize = FILENAME_LEN;
    proof {
        assert(nv@.take(FILENAME_LEN as int) =~= nv@);
    }
    while tl > 0 && nv[tl - 1] == 0
        invariant
            tl <= FILENAME_LEN,
            nv@.len() == FILENAME_LEN,
            trim_name(nv@) == trim_name(nv@.take(tl as int)),
        decreases tl,
    {
        proof {
            assert(nv@.take(tl as int).drop_last() =~= nv@.take(tl as int - 1));
        }
        tl = tl - 1;
    }
    proof {
        if tl == 0 {
            assert(nv@.take(0) =~= Seq::<u8>::empty());
        }
        assert(trim_name(nv@) == nv@.take(tl as int));
    }
    tl
}

/// Whether a stored (fixed-width, zero-padded) name answers to the query
/// bytes `nb`.
fn entry_matches(e: &DirEntry, nb: &[u8]) -> (r: bool)
    requires
        e.name@.len() == FILENAME_LEN,
    ensures
        r == name_matches(e@, nb@),
{
    if e.name[0] == 0 {
        return false;
    }
    let tl = trimmed_len(&e.name);
    proof {
        assert(trim_name(e.name@).len() == tl);
    }
    if nb.len() != tl {
        return false;
    }
    for i in 0..tl
        invariant
            tl <= FILENAME_LEN,
            e.name@.len() == FILENAME_LEN,
            nb@.len() == tl,
            trim_name(e.name@) == e.name@.take(tl as int),
            forall|j: int| 0 <= j < i ==> e.name@[j] == nb@[j],
    {
        if e.name[i] != nb[i] {
            proof {
                assert(trim_name(e.name@)[i as int] == e.name@[i as int]);
            }
            return false;
        }
    }
    proof {
        assert(trim_name(e.name@) =~= nb@);
    }
    true
}

impl FS {
    /// The first directory slot answering to `nb`, if any.
    fn find_entry(&self, nb: &[u8]) -> (r: Option<usize>)
        requires
            self.wf(),
        ensures
            r is Some ==> r->0 == file_slot(self@, nb@) && (r->0 as int) < self@.dir.len(),
            r is None ==> !has_file(self@, nb@),
    {
        let ghost v = self@;
        for i in 0..MAX_FILES
            invariant
                self.wf(),
                v == self@,
                file_slot(v, nb@) == first_match_from(v.dir, nb@, i as int),
        {
            if entry_matches(&self.dir[i], nb) {
                proof {
                    assert(v.dir[i as int] == self.dir@[i as int]@);
                }
                return Some(i);
            }
            proof {
                assert(v.dir[i as int] == self.dir@[i as int]@);
            }
        }
        proof {
            lemma_first_match_from_props(v.dir, nb@, 0);
        }
        None
    }

    /// The first free directory slot, if any.
    fn find_free_slot(&self) -> (r: Option<usize>)
        requires
            self.wf(),
        ensures
            r is Some ==> r->0 == first_free_from(self@.dir, 0) && (r->0 as int) < self@.dir.len(),
            r is None ==> first_free_from(self@.dir, 0) == self@.dir.len(),
    {
        let ghost v = self@;
        for j in 0..MAX_FILES
            invariant
                self.wf(),
                v == self@,
                first_free_from(v.dir, 0) == first_free_from(v.dir, j as int),
        {
            proof {
                assert(v.dir[j as int] == self.dir@[j as int]@);
            }
            if self.dir[j].name[0] == 0 {
                return Some(j);
            }
        }
        None
    }
}

/// Counting is monotone and bounded: at most one free block per index.
proof fn lemma_count_free_bounds(free: Seq<bool>, n: int)
    requires
        0 <= n <= free.len(),
    ensures
        0 <= count_free_upto(free, n) <= n,
    decreases n,
{
    if n > 0 {
        lemma_count_free_bounds(free, n - 1);
    }
}

/// Allocating a free block lowers the free count by one.
proof fn lemma_count_free_clear(free: Seq<bool>, b: int, n: int)
    requires
        0 <= b < free.len(),
        0 <= n <= free.len(),
        free[b],
    ensures
        count_free_upto(free.update(b, false), n) == count_free_upto(free, n) - if b < n {
            1int
        } else {
            0int
        },
    decreases n,
{
    if n > 0 {
        lemma_count_free_clear(free, b, n - 1);
    }
}

/// Freeing an allocated block raises the free count by one; freeing a
/// free block leaves it unchanged.
proof fn lemma_count_free_set(free: Seq<bool>, b: int, n: int)
    requires
        0 <= b < free.len(),
        0 <= n <= free.len(),
    ensures
        count_free_upto(free.update(b, true), n) == count_free_upto(free, n) + if b < n
            && !free[b] {
            1int
        } else {
            0int
        },
    decreases n,
{
    if n > 0 {
        lemma_count_free_set(free, b, n - 1);
    }
}

/// With no free block below `n`, the count below `n` is zero.
pub proof fn lemma_count_free_none(free: Seq<bool>, n: int)
    requires
        0 <= n <= free.len(),
        forall|b: int| 0 <= b < n ==> !free[b],
    ensures
        count_free_upto(free, n) == 0,
    decreases n,
{
    if n > 0 {
        lemma_count_free_none(free, n - 1);
    }
}

impl FS {
    /// Create an empty file named `name`. The name must be 1 to
    /// `FILENAME_LEN` bytes (`NameTooLong` otherwise); no active entry may
    /// already answer to it (`AlreadyExists`); and a free directory slot
    /// must exist (`NoSpace`). On success the first free slot, in scan
    /// order, takes the zero-padded name with size zero and no blocks.
    pub fn create(&mut self, name: &str) -> (r: Result<(), FsError>)
        requires
            old(self).wf(),
        ensures
            final(self).wf(),
            r is Err ==> *final(self) == *old(self),
            (r == Err::<(), FsError>(FsError::NameTooLong)) == (name.spec_bytes().len() == 0
                || name.spec_bytes().len() > FILENAME_LEN),
            (r == Err::<(), FsError>(FsError::AlreadyExists)) == (1 <= name.spec_bytes().len()
                <= FILENAME_LEN && has_file(old(self)@, name.spec_bytes())),
            (r == Err::<(), FsError>(FsError::NoSpace)) == (1 <= name.spec_bytes().len()
                <= FILENAME_LEN && !has_file(old(self)@, name.spec_bytes()) && first_free_from(
                old(self)@.dir,
                0,
            ) == MAX_FILES),
            (r is Ok) == (1 <= name.spec_bytes().len() <= FILENAME_LEN && !has_file(
                old(self)@,
                name.spec_bytes(),
            ) && first_free_from(old(self)@.dir, 0) < MAX_FILES),
            r is Ok ==> create_ok_post(old(self)@, final(self)@, name.spec_bytes()),
    {
        if name.len() == 0 || name.len() > FILENAME_LEN {
            return Err(FsError::NameTooLong);
        }
        let nb = name.as_bytes();
        if self.find_entry(nb).is_some() {
            return Err(FsError::AlreadyExists);
        }
        let slot = self.find_free_slot();
        if slot.is_none() {
            return Err(FsError::NoSpace);
        }
        let j = slot.unwrap();
        let mut nm: Vec<u8> = Vec::new();
        for i in 0..nb.len()
            invariant
                nb@.len() <= FILENAME_LEN,
                nm@.len() == i,
                forall|q: int| 0 <= q < i ==> nm@[q] == nb@[q],
        {
            nm.push(nb[i]);
        }
        for k in nb.len()..FILENAME_LEN
            invariant
                nb@.len() <= FILENAME_LEN,
                nm@.len() == k,
                forall|q: int| 0 <= q < nb@.len() ==> nm@[q] == nb@[q],
                forall|q: int| nb@.len() <= q < k ==> nm@[q] == 0,
        {
            nm.push(0);
        }
        let mut e = DirEntry::default();
        e.name = nm;
        let ghost v = old(self)@;
        let ghost ev = e@;
        self.dir[j] = e;
        proof {
            let nmseq = name.spec_bytes();
            assert(ev.name =~= padded_name(nmseq));
            assert(ev.block_list =~= Seq::<u32>::empty());
            assert(ev =~= (EntryView {
                name: padded_name(nmseq),
                size: 0,
                block_list: Seq::empty(),
            }));
            let v2 = self@;
            assert(v2.dir =~= v.dir.update(j as int, ev));
            assert(v2.free =~= v.free);
            assert(v2.data == v.data);
            assert(create_ok_post(v, v2, nmseq));
            assert forall|i: int| 0 <= i < MAX_FILES implies entry_inv(v2, #[trigger] v2.dir[i]) by {
                assert(entry_inv(v, v.dir[i]));
            }
            assert forall|i1: int, i2: int, b: u32|
                owns_block(v2, i1, b) && owns_block(v2, i2, b) implies i1 == i2 by {
                assert(i1 != j as int && i2 != j as int ==> owns_block(v, i1, b) && owns_block(
                    v,
                    i2,
                    b,
                ));
            }
            assert(self.wf());
        }
        Ok(())
    }
}

impl FS {
    /// Return every block owned by the active slot `idx` to the free
    /// pool, leaving the directory and data untouched.
    fn release_owned(&mut self, idx: usize)
        requires
            old(self).wf(),
            idx < MAX_FILES,
            slot_active(old(self)@.dir[idx as int]),
        ensures
            same_geometry(old(self).superblock, final(self).superblock),
            final(self).dir == old(self).dir,
            final(self).data == old(self).data,
            forall|b2: int|
                0 <= b2 < TOTAL_BLOCKS ==> (final(self)@.free[b2] == (old(self)@.free[b2] || old(
                    self,
                )@.dir[idx as int].block_list.contains(b2 as u32))),
            free_count(final(self)@) == free_count(old(self)@) + old(self)@.dir[
                idx as int
            ].block_list.len(),
    {
        let ghost v = old(self)@;
        let ghost owned = v.dir[idx as int].block_list;
        let count = self.dir[idx].blocks as usize;
        proof {
            assert(v.dir[idx as int] == self.dir@[idx as int]@);
            assert(owned.len() == count);
        }
        for k in 0..count
            invariant
                old(self).wf(),
                v == old(self)@,
                idx < MAX_FILES,
                owned == v.dir[idx as int].block_list,
                count == owned.len(),
                slot_active(v.dir[idx as int]),
                self.dir == old(self).dir,
                self.data == old(self).data,
                same_geometry(old(self).superblock, self.superblock),
                forall|b2: int|
                    0 <= b2 < TOTAL_BLOCKS ==> (self@.free[b2] == (v.free[b2] || exists|q: int|
                        0 <= q < k && (#[trigger] owned[q]) == b2 as u32)),
                free_count(self@) == free_count(v) + k,
        {
            let bn = self.dir[idx].block_list[k];
            proof {
                assert(v.dir[idx as int] == self.dir@[idx as int]@);
                assert(owned[k as int] == self.dir@[idx as int].block_list@[k as int]);
                assert(entry_inv(v, v.dir[idx as int]));
                assert(owned[k as int] < TOTAL_BLOCKS);
            }
            let ghost pre = self@.free;
            self.free_block(bn);
            proof {
                assert(!v.free[bn as int]);
                assert(forall|q: int| 0 <= q < k ==> (#[trigger] owned[q]) != owned[k as int]);
                assert(!pre[bn as int]);
                lemma_count_free_set(pre, bn as int, TOTAL_BLOCKS as int);
                assert forall|b2: int|
                    0 <= b2 < TOTAL_BLOCKS implies (self@.free[b2] == (v.free[b2] || exists|q: int|
                    0 <= q < k + 1 && (#[trigger] owned[q]) == b2 as u32)) by {
                    if b2 == bn as int {
                        assert(owned[k as int] == b2 as u32);
                    } else {
                        assert(self@.free[b2] == pre[b2]);
                        assert(forall|q: int|
                            0 <= q < k + 1 && (#[trigger] owned[q]) == b2 as u32 ==> q < k);
                    }
                }
            }
        }
        proof {
            assert forall|b2: int| 0 <= b2 < TOTAL_BLOCKS implies (self@.free[b2] == (v.free[b2]
                || owned.contains(b2 as u32))) by {
                if owned.contains(b2 as u32) {
                    let q = choose|q: int| 0 <= q < owned.len() && owned[q] == b2 as u32;
                    assert(owned[q] == b2 as u32);
                }
            }
        }
    }

    /// Delete the file named `name`: fail with `NotFound` if no active
    /// entry answers to it; otherwise return every owned block to the
    /// free pool and clear the whole slot back to free.
    pub fn delete(&mut self, name: &str) -> (r: Result<(), FsError>)
        requires
            old(self).wf(),
        ensures
            final(self).wf(),
            (r is Ok) == has_file(old(self)@, name.spec_bytes()),
            r is Err ==> r->Err_0 == FsError::NotFound && *final(self) == *old(self),
            r is Ok ==> delete_ok_post(old(self)@, final(self)@, name.spec_bytes()),
    {
        let nb = name.as_bytes();
        let found = self.find_entry(nb);
        if found.is_none() {
            return Err(FsError::NotFound);
        }
        let idx = found.unwrap();
        let ghost v = old(self)@;
        let ghost nm = name.spec_bytes();
        let ghost owned = v.dir[idx as int].block_list;
        proof {
            lemma_first_match_from_props(v.dir, nm, 0);
            assert(name_matches(v.dir[idx as int], nm));
        }
        self.release_owned(idx);
        let ghost freed = self@.free;
        self.dir[idx] = DirEntry::default();
        proof {
            let v2 = self@;
            assert(v2.free == freed);
            assert(v2.dir =~= v.dir.update(idx as int, cleared_entry()));
            assert(v2.data == v.data);
            assert(v2.free =~= Seq::new(
                v.free.len(),
                |b: int| v.free[b] || v.dir[idx as int].block_list.contains(b as u32),
            ));
            assert(delete_ok_post(v, v2, nm));
            assert forall|i: int| 0 <= i < MAX_FILES implies entry_inv(v2, #[trigger] v2.dir[i]) by {
                assert(entry_inv(v, v.dir[i]));
                if i != idx as int && slot_active(v.dir[i]) {
                    assert forall|k2: int| 0 <= k2 < v2.dir[i].block_list.len() implies (
                    #[trigger] v2.dir[i].block_list[k2]) < TOTAL_BLOCKS
                        && !v2.free[v2.dir[i].block_list[k2] as int] by {
                        let b = v.dir[i].block_list[k2];
                        assert(b < TOTAL_BLOCKS);
                        assert(!v.free[b as int]);
                        if owned.contains(b) {
                            assert(owns_block(v, i, b));
                            assert(owns_block(v, idx as int, b));
                        }
                        assert(!owned.contains(b));
                    }
                }
            }
            assert forall|i1: int, i2: int, b: u32|
                owns_block(v2, i1, b) && owns_block(v2, i2, b) implies i1 == i2 by {
                assert(i1 != idx as int && i2 != idx as int ==> owns_block(v, i1, b) && owns_block(
                    v,
                    i2,
                    b,
                ));
                assert(v2.dir[idx as int].block_list.len() == 0);
            }
            assert(self.wf());
        }
        Ok(())
    }
}

/// Bounds tying a byte count to its ceiling block count.
proof fn lemma_blocks_needed_bounds(len: int)
    requires
        0 <= len,
    ensures
        0 <= blocks_needed(len as nat),
        len <= blocks_needed(len as nat) * BLOCK_SIZE,
        len == 0 ==> blocks_needed(len as nat) == 0,
        len <= MAX_FILE_BLOCKS * BLOCK_SIZE ==> blocks_needed(len as nat) <= MAX_FILE_BLOCKS,
{
    vstd::arithmetic::div_mod::lemma_fundamental_div_mod(len + BLOCK_SIZE - 1, BLOCK_SIZE as int);
    vstd::arithmetic::div_mod::lemma_mod_bound(len + BLOCK_SIZE - 1, BLOCK_SIZE as int);
}

/// A byte offset below `n * BLOCK_SIZE` falls in block `j / BLOCK_SIZE`,
/// which is below `n`, at offset `j % BLOCK_SIZE`.
proof fn lemma_block_index(j: int, n: int)
    requires
        0 <= j,
        j < n * BLOCK_SIZE,
    ensures
        0 <= j / (BLOCK_SIZE as int) < n,
        (j / (BLOCK_SIZE as int)) * BLOCK_SIZE + (j % (BLOCK_SIZE as int)) == j,
        0 <= j % (BLOCK_SIZE as int) < BLOCK_SIZE,
{
    vstd::arithmetic::div_mod::lemma_fundamental_div_mod(j, BLOCK_SIZE as int);
    vstd::arithmetic::div_mod::lemma_mod_bound(j, BLOCK_SIZE as int);
}

/// A fresh copy of a byte vector.
fn copy_bytes(src: &Vec<u8>) -> (r: Vec<u8>)
    ensures
        r@ == src@,
{
    let mut r: Vec<u8> = Vec::new();
    for i in 0..src.len()
        invariant
            r@.len() == i,
            forall|q: int| 0 <= q < i ==> r@[q] == src@[q],
    {
        r.push(src[i]);
    }
    proof {
        assert(r@ =~= src@);
    }
    r
}

impl FS {
    /// Write `data` as the new content of the file named `name`,
    /// replacing whatever it held. Fails with `NotFound` if no active
    /// entry answers to the name, with `FileTooLarge` if the data needs
    /// more than `MAX_FILE_BLOCKS` blocks, and with `NoSpace` if the free
    /// pool plus the entry's own blocks cannot cover the need. The space
    /// check runs before any state is touched, so every failure leaves
    /// the engine unchanged (allocate-then-commit; there is no partial
    /// write).
    pub fn write(&mut self, name: &str, data: &[u8]) -> (r: Result<(), FsError>)
        requires
            old(self).wf(),
        ensures
            final(self).wf(),
            r is Err ==> *final(self) == *old(self),
            (r == Err::<(), FsError>(FsError::NotFound)) == !has_file(
                old(self)@,
                name.spec_bytes(),
            ),
            (r == Err::<(), FsError>(FsError::FileTooLarge)) == (has_file(
                old(self)@,
                name.spec_bytes(),
            ) && data@.len() > MAX_FILE_BLOCKS * BLOCK_SIZE),
            (r == Err::<(), FsError>(FsError::NoSpace)) == (has_file(old(self)@, name.spec_bytes())
                && data@.len() <= MAX_FILE_BLOCKS * BLOCK_SIZE && blocks_needed(data@.len())
                > free_count(old(self)@) + old(self)@.dir[file_slot(
                old(self)@,
                name.spec_bytes(),
            )].block_list.len()),
            (r is Ok) == (has_file(old(self)@, name.spec_bytes()) && data@.len() <= MAX_FILE_BLOCKS
                * BLOCK_SIZE && blocks_needed(data@.len()) <= free_count(old(self)@) + old(
                self,
            )@.dir[file_slot(old(self)@, name.spec_bytes())].block_list.len()),
            r is Ok ==> write_ok_post(old(self)@, final(self)@, name.spec_bytes(), data@),
    {
        let nb = name.as_bytes();
        let found = self.find_entry(nb);
        if found.is_none() {
            return Err(FsError::NotFound);
        }
        let idx = found.unwrap();
        let ghost v = old(self)@;
        let ghost nm = name.spec_bytes();
        proof {
            lemma_first_match_from_props(v.dir, nm, 0);
            assert(name_matches(v.dir[idx as int], nm));
            assert(v.dir[idx as int] == self.dir@[idx as int]@);
        }
        let dlen = data.len();
        if dlen > MAX_FILE_BLOCKS * BLOCK_SIZE {
            return Err(FsError::FileTooLarge);
        }
        let needed = (dlen + BLOCK_SIZE - 1) / BLOCK_SIZE;
        proof {
            lemma_blocks_needed_bounds(dlen as int);
            assert(needed == blocks_needed(data@.len()));
            assert(needed <= MAX_FILE_BLOCKS);
            assert(dlen <= needed * BLOCK_SIZE);
        }
        let free_now = self.count_free_blocks();
        let owned_count = self.dir[idx].blocks;
        proof {
            assert(entry_inv(v, v.dir[idx as int]));
            assert(owned_count as int == v.dir[idx as int].block_list.len());
        }
        if needed as u32 > free_now + owned_count {
            return Err(FsError::NoSpace);
        }
        self.release_owned(idx);
        let ghost fv = self@.free;
        let ghost cf = free_count(self@);
        proof {
            assert(cf == free_count(v) + v.dir[idx as int].block_list.len());
            assert(needed <= cf);
            assert(self@.data == v.data);
        }
        let mut new_list: Vec<u32> = Vec::new();
        for i2 in 0..needed
            invariant
                old(self).wf(),
                v == old(self)@,
                idx < MAX_FILES,
                needed <= MAX_FILE_BLOCKS,
                dlen == data@.len(),
                dlen <= MAX_FILE_BLOCKS * BLOCK_SIZE,
                needed == blocks_needed(data@.len()),
                dlen <= needed * BLOCK_SIZE,
                needed <= cf,
                self.dir == old(self).dir,
                same_geometry(old(self).superblock, self.superblock),
                self.superblock.free_block_bitmap@.len() == BITMAP_LEN,
                self.data@.len() == TOTAL_BLOCKS,
                forall|b2: int|
                    0 <= b2 < TOTAL_BLOCKS ==> (#[trigger] self.data@[b2])@.len() == BLOCK_SIZE,
                new_list@.len() == i2,
                forall|q: int| 0 <= q < i2 ==> (#[trigger] new_list@[q]) < TOTAL_BLOCKS,
                forall|q: int| 0 <= q < i2 ==> fv[(#[trigger] new_list@[q]) as int],
                forall|q: int| 0 <= q < i2 ==> !self@.free[(#[trigger] new_list@[q]) as int],
                forall|q1: int, q2: int|
                    0 <= q1 < q2 < i2 ==> new_list@[q1] != new_list@[q2],
                forall|b2: int| 0 <= b2 < TOTAL_BLOCKS && #[trigger] self@.free[b2] ==> fv[b2],
                forall|b2: int|
                    0 <= b2 < TOTAL_BLOCKS && !fv[b2] ==> #[trigger] self@.data[b2] == v.data[b2],
                forall|q: int|
                    0 <= q < i2 ==> #[trigger] self@.data[new_list@[q] as int] == block_of(
                        data@,
                        q,
                    ),
                free_count(self@) == cf - i2,
        {
            let ghost pre = self@.free;
            let ghost pdata = self@.data;
            let res = self.alloc_block();
            if res.is_err() {
                proof {
                    lemma_count_free_none(pre, TOTAL_BLOCKS as int);
                    assert(false);
                }
                return Err(FsError::NoSpace);
            }
            let bn = res.unwrap();
            let mut blk: Vec<u8> = Vec::new();
            let start = i2 * BLOCK_SIZE;
            for j in 0..BLOCK_SIZE
                invariant
                    blk@.len() == j,
                    start == i2 * BLOCK_SIZE,
                    i2 < needed,
                    needed <= MAX_FILE_BLOCKS,
                    dlen == data@.len(),
                    dlen <= MAX_FILE_BLOCKS * BLOCK_SIZE,
                    forall|q: int| 0 <= q < j ==> blk@[q] == block_of(data@, i2 as int)[q],
            {
                if start + j < dlen {
                    blk.push(data[start + j]);
                } else {
                    blk.push(0);
                }
            }
            proof {
                assert(blk@ =~= block_of(data@, i2 as int));
            }
            let ghost blkv = blk@;
            proof {
                assert(self@.data == pdata);
            }
            self.data[bn as usize] = blk;
            new_list.push(bn);
            proof {
                assert forall|b2: int| 0 <= b2 < TOTAL_BLOCKS implies #[trigger] self@.data[b2]
                    == (if b2 == bn as int {
                    blkv
                } else {
                    pdata[b2]
                }) by {
                    if b2 == bn as int {
                        assert(self.data@[b2].deep_view() =~= blkv);
                    }
                }
                assert(pre[bn as int]);
                assert(fv[bn as int]);
                assert forall|b2: int| 0 <= b2 < TOTAL_BLOCKS && !fv[b2] implies #[trigger] self@
                    .data[b2] == v.data[b2] by {
                    assert(b2 != bn as int);
                    assert(self@.data[b2] == pdata[b2]);
                    assert(pdata[b2] == v.data[b2]);
                }
                assert forall|q: int| 0 <= q < i2 + 1 implies #[trigger] self@.data[new_list@[q] as int]
                    == block_of(data@, q) by {
                    if q == i2 as int {
                        assert(new_list@[q] == bn);
                        assert(self@.data[bn as int] == blkv);
                    } else {
                        assert(new_list@[q] != bn);
                        assert(self@.data[new_list@[q] as int] == pdata[new_list@[q] as int]);
                        assert(pdata[new_list@[q] as int] == block_of(data@, q));
                    }
                }
                lemma_count_free_clear(pre, bn as int, TOTAL_BLOCKS as int);
                assert forall|q1: int, q2: int|
                    0 <= q1 < q2 < i2 + 1 implies new_list@[q1] != new_list@[q2] by {
                    if q2 == i2 as int {
                        assert(!pre[new_list@[q1] as int]);
                        assert(pre[bn as int]);
                    }
                }
            }
        }
        let ghost nl = new_list@;
        for k2 in needed..MAX_FILE_BLOCKS
            invariant
                new_list@.len() == k2,
                needed == nl.len(),
                forall|q: int| 0 <= q < needed ==> new_list@[q] == nl[q],
        {
            new_list.push(0);
        }
        let nmv = copy_bytes(&self.dir[idx].name);
        let e = DirEntry { name: nmv, size: dlen as u32, blocks: needed as u32, block_list: new_list };
        let ghost s3 = self@;
        self.dir[idx] = e;
        proof {
            let i = idx as int;
            let v2 = self@;
            assert(s3.dir =~= v.dir);
            assert(e@.name == v.dir[i].name);
            assert(e@.block_list =~= nl);
            assert(v2.dir =~= v.dir.update(i, e@));
            assert(v2.free == s3.free);
            assert(v2.data == s3.data);
            // content of the written file
            assert forall|j: int| 0 <= j < dlen implies entry_content(v2.dir[i], v2.data)[j]
                == data@[j] by {
                lemma_block_index(j, needed as int);
                let q = j / (BLOCK_SIZE as int);
                let rr = j % (BLOCK_SIZE as int);
                assert(v2.dir[i].block_list[q] == nl[q]);
                assert(v2.data[nl[q] as int] == block_of(data@, q));
                assert(block_of(data@, q)[rr] == data@[j]);
            }
            assert(entry_content(v2.dir[i], v2.data) =~= data@);
            // every other slot and its content are untouched
            assert forall|jj: int| 0 <= jj < v.dir.len() && jj != i implies #[trigger] v2.dir[jj]
                == v.dir[jj] && entry_content(v2.dir[jj], v2.data) == entry_content(
                v.dir[jj],
                v.data,
            ) by {
                let ej = v.dir[jj];
                assert(entry_inv(v, ej));
                assert forall|jb: int| 0 <= jb < ej.size implies entry_content(ej, v2.data)[jb]
                    == entry_content(ej, v.data)[jb] by {
                    assert(ej.size > 0);
                    assert(slot_active(ej));
                    lemma_block_index(jb, ej.block_list.len() as int);
                    let q = jb / (BLOCK_SIZE as int);
                    let b = ej.block_list[q];
                    assert(b < TOTAL_BLOCKS && !v.free[b as int]);
                    if v.dir[i].block_list.contains(b) {
                        assert(owns_block(v, i, b));
                        assert(owns_block(v, jj, b));
                        assert(false);
                    }
                    assert(!fv[b as int]);
                    assert(v2.data[b as int] == v.data[b as int]);
                }
                assert(entry_content(ej, v2.data) =~= entry_content(ej, v.data));
            }
            assert(free_count(v2) == free_count(v) + v.dir[i].block_list.len() - needed);
            assert(write_ok_post(v, v2, nm, data@));
            // well-formedness is preserved
            assert(e.wf());
            assert forall|ii: int| 0 <= ii < MAX_FILES implies entry_inv(v2, #[trigger] v2.dir[ii]) by {
                assert(entry_inv(v, v.dir[ii]));
                if ii == i {
                    assert(nl.no_duplicates());
                    assert forall|k: int| 0 <= k < nl.len() implies (#[trigger] nl[k])
                        < TOTAL_BLOCKS && !v2.free[nl[k] as int] by {}
                } else {
                    let ej = v.dir[ii];
                    assert forall|k: int| 0 <= k < ej.block_list.len() implies (
                    #[trigger] ej.block_list[k]) < TOTAL_BLOCKS
                        && !v2.free[ej.block_list[k] as int] by {
                        let b = ej.block_list[k];
                        assert(!v.free[b as int]);
                        if v.dir[i].block_list.contains(b) {
                            assert(owns_block(v, i, b));
                            assert(owns_block(v, ii, b));
                            assert(false);
                        }
                        assert(!fv[b as int]);
                    }
                }
            }
            assert forall|i1: int, i2: int, b: u32|
                owns_block(v2, i1, b) && owns_block(v2, i2, b) implies i1 == i2 by {
                if i1 != i && i2 != i {
                    assert(owns_block(v, i1, b));
                    assert(owns_block(v, i2, b));
                } else {
                    if i1 == i && i2 != i {
                        assert(nl.contains(b));
                        let q = choose|q: int| 0 <= q < nl.len() && nl[q] == b;
                        assert(fv[b as int]);
                        assert(owns_block(v, i2, b));
                        assert(!v.free[b as int]);
                        if v.dir[i].block_list.contains(b) {
                            assert(owns_block(v, i, b));
                        }
                        assert(false);
                    }
                    if i2 == i && i1 != i {
                        assert(nl.contains(b));
                        let q = choose|q: int| 0 <= q < nl.len() && nl[q] == b;
                        assert(fv[b as int]);
                        assert(owns_block(v, i1, b));
                        assert(!v.free[b as int]);
                        if v.dir[i].block_list.contains(b) {
                            assert(owns_block(v, i, b));
                        }
                        assert(false);
                    }
                }
            }
            assert(self.wf());
        }
        Ok(())
    }
}

impl FS {
    /// Read the file named `name` into `buf`: copy
    /// `min(buf.len(), size)` bytes of its content into the front of the
    /// buffer, leave the rest of the buffer untouched, and return the
    /// count copied. Fails with `NotFound` if no active entry answers to
    /// the name. Bytes past the file's size are never read, even when
    /// the final block physically holds more.
    pub fn read(&self, name: &str, buf: &mut Vec<u8>) -> (r: Result<usize, FsError>)
        requires
            self.wf(),
        ensures
            final(buf)@.len() == old(buf)@.len(),
            (r is Ok) == has_file(self@, name.spec_bytes()),
            r is Err ==> r->Err_0 == FsError::NotFound && final(buf)@ == old(buf)@,
            r is Ok ==> ({
                let i = file_slot(self@, name.spec_bytes());
                let n = r->Ok_0 as int;
                &&& n == if old(buf)@.len() <= self@.dir[i].size {
                    old(buf)@.len() as int
                } else {
                    self@.dir[i].size as int
                }
                &&& forall|j: int|
                    0 <= j < n ==> final(buf)@[j] == file_content(self@, name.spec_bytes())[j]
                &&& forall|j: int| n <= j < old(buf)@.len() ==> final(buf)@[j] == old(buf)@[j]
            }),
    {
        let nb = name.as_bytes();
        let found = self.find_entry(nb);
        if found.is_none() {
            return Err(FsError::NotFound);
        }
        let idx = found.unwrap();
        let ghost v = self@;
        let ghost nm = name.spec_bytes();
        let ghost i = idx as int;
        let ghost buf0 = buf@;
        proof {
            lemma_first_match_from_props(v.dir, nm, 0);
            assert(name_matches(v.dir[i], nm));
            assert(entry_inv(v, v.dir[i]));
            assert(v.dir[i] == self.dir@[i]@);
        }
        let size = self.dir[idx].size as usize;
        let n = if buf.len() < size {
            buf.len()
        } else {
            size
        };
        for j in 0..n
            invariant
                self.wf(),
                v == self@,
                idx < MAX_FILES,
                i == idx as int,
                name_matches(v.dir[i], nm),
                entry_inv(v, v.dir[i]),
                v.dir[i] == self.dir@[i]@,
                size == v.dir[i].size,
                n <= size,
                n <= buf0.len(),
                buf@.len() == buf0.len(),
                forall|q: int| 0 <= q < j ==> buf@[q] == entry_content(v.dir[i], v.data)[q],
                forall|q: int| j <= q < buf0.len() ==> buf@[q] == buf0[q],
        {
            proof {
                lemma_block_index(j as int, v.dir[i].block_list.len() as int);
            }
            let bi = self.dir[idx].block_list[j / BLOCK_SIZE];
            proof {
                assert(v.dir[i].block_list[j as int / (BLOCK_SIZE as int)] == bi);
                assert(bi < TOTAL_BLOCKS);
                assert(v.data[bi as int] == self.data@[bi as int].deep_view());
                assert(v.data[bi as int].len() == BLOCK_SIZE);
            }
            let byte = self.data[bi as usize][j % BLOCK_SIZE];
            buf[j] = byte;
            proof {
                assert(byte == v.data[bi as int][j as int % (BLOCK_SIZE as int)]);
                assert(entry_content(v.dir[i], v.data)[j as int] == byte);
            }
        }
        proof {
            assert(file_content(v, nm) == entry_content(v.dir[i], v.data));
        }
        Ok(n)
    }

    /// The directory listing: one `(name, size)` row per active slot, in
    /// ascending slot order. Names come back trimmed of their padding.
    pub fn list(&self) -> (r: Vec<FileInfo>)
        requires
            self.wf(),
        ensures
            r@.len() == listing(self@).len(),
            forall|k: int| 0 <= k < r@.len() ==> (#[trigger] r@[k])@ == listing(self@)[k],
    {
        let ghost v = self@;
        let mut r: Vec<FileInfo> = Vec::new();
        for i in 0..MAX_FILES
            invariant
                self.wf(),
                v == self@,
                r@.len() == listing_upto(v.dir, i as int).len(),
                forall|k: int|
                    0 <= k < r@.len() ==> (#[trigger] r@[k])@ == listing_upto(v.dir, i as int)[k],
        {
            proof {
                assert(v.dir[i as int] == self.dir@[i as int]@);
            }
            if self.dir[i].name[0] != 0 {
                let tl = trimmed_len(&self.dir[i].name);
                let mut nmv: Vec<u8> = Vec::new();
                for q in 0..tl
                    invariant
                        tl <= FILENAME_LEN,
                        self.dir@.len() == MAX_FILES,
                        i < MAX_FILES,
                        self.dir@[i as int].name@.len() == FILENAME_LEN,
                        nmv@.len() == q,
                        forall|p: int| 0 <= p < q ==> nmv@[p] == self.dir@[i as int].name@[p],
                {
                    nmv.push(self.dir[i].name[q]);
                }
                proof {
                    assert(nmv@ =~= self.dir@[i as int].name@.take(tl as int));
                    assert(nmv@ == trim_name(v.dir[i as int].name));
                }
                let info = FileInfo { name: nmv, size: self.dir[i].size };
                r.push(info);
            }
        }
        r
    }
}

/// If every flag below `n` is set, the count below `n` is `n`.
proof fn lemma_count_free_all(free: Seq<bool>, n: int)
    requires
        0 <= n <= free.len(),
        forall|b: int| 0 <= b < n ==> free[b],
    ensures
        count_free_upto(free, n) == n,
    decreases n,
{
    if n > 0 {
        lemma_count_free_all(free, n - 1);
    }
}

} // verus!
