//! Engine-wide laws, proved over the mathematical model.
//!
//! Each law relates the postconditions of several engine operations,
//! stated over the same views and spec functions their contracts use.

use vstd::prelude::*;
use crate::fs::{
    FsView, create_ok_post, write_ok_post, delete_ok_post, has_file, file_slot, file_content,
    free_count, first_free_from, name_matches, slot_active, trim_name, padded_name, entry_content,
    lemma_first_match_from_props, lemma_first_match_from_is, lemma_first_free_from_props,
    lemma_trim_append_zeros, lemma_count_free_pos, lemma_count_free_none, blocks_needed,
    TOTAL_BLOCKS, FILENAME_LEN,
};

verus! {

/// A newly created file is empty. After a successful `create` of a
/// canonical name (nonzero first byte, no trailing zero bytes), the file
/// exists in the slot `create` claimed, owns no blocks, has size zero,
/// and its content is empty — so a read into a buffer of any length
/// copies zero bytes.
pub proof fn lemma_create_then_read_empty(v: FsView, v2: FsView, nm: Seq<u8>)
    requires
        create_ok_post(v, v2, nm),
        nm[0] != 0,
        trim_name(nm) == nm,
    ensures
        has_file(v2, nm),
        file_slot(v2, nm) == first_free_from(v.dir, 0),
        v2.dir[file_slot(v2, nm)].size == 0,
        v2.dir[file_slot(v2, nm)].block_list.len() == 0,
        file_content(v2, nm) == Seq::<u8>::empty(),
{
    let j = first_free_from(v.dir, 0);
    lemma_first_free_from_props(v.dir, 0);
    lemma_first_match_from_props(v.dir, nm, 0);
    let e = v2.dir[j];
    assert(e.name == padded_name(nm));
    assert(e.name.len() == FILENAME_LEN);
    assert(e.name[0] == nm[0]);
    assert(slot_active(e));
    lemma_trim_append_zeros(nm, (FILENAME_LEN - nm.len()) as nat);
    assert(trim_name(e.name) == nm);
    assert(name_matches(e, nm));
    assert forall|k: int| 0 <= k < j implies !name_matches(v2.dir[k], nm) by {
        assert(v2.dir[k] == v.dir[k]);
    }
    lemma_first_match_from_is(v2.dir, nm, 0, j);
    assert(entry_content(e, v2.data) =~= Seq::<u8>::empty());
}

/// Round trip. After a successful `write` of `data`, the file still
/// answers to its name in the same slot, records `data.len()` as its
/// size, and its content is exactly `data` — so a read into a buffer at
/// least `data.len()` long returns precisely `data`.
pub proof fn lemma_write_then_read_round_trip(v: FsView, v2: FsView, nm: Seq<u8>, data: Seq<u8>)
    requires
        write_ok_post(v, v2, nm, data),
    ensures
        has_file(v2, nm),
        file_slot(v2, nm) == file_slot(v, nm),
        v2.dir[file_slot(v2, nm)].size == data.len(),
        file_content(v2, nm) == data,
{
    let i = file_slot(v, nm);
    lemma_first_match_from_props(v.dir, nm, 0);
    assert(name_matches(v.dir[i], nm));
    assert(v2.dir[i].name == v.dir[i].name);
    assert(name_matches(v2.dir[i], nm));
    assert forall|k: int| 0 <= k < i implies !name_matches(v2.dir[k], nm) by {
        assert(v2.dir[k] == v.dir[k]);
    }
    lemma_first_match_from_is(v2.dir, nm, 0, i);
}

/// A create → write → delete cycle restores the allocator's free-block
/// count: `delete` returns every block the entry owned to the pool, and
/// the entry owned exactly the blocks the write claimed.
pub proof fn lemma_cycle_restores_free_count(
    v0: FsView,
    v1: FsView,
    v2: FsView,
    v3: FsView,
    nm: Seq<u8>,
    data: Seq<u8>,
)
    requires
        create_ok_post(v0, v1, nm),
        write_ok_post(v1, v2, nm, data),
        delete_ok_post(v2, v3, nm),
        nm[0] != 0,
        trim_name(nm) == nm,
    ensures
        free_count(v3) == free_count(v0),
{
    lemma_create_then_read_empty(v0, v1, nm);
    let i = file_slot(v1, nm);
    assert(v1.dir[i].block_list.len() == 0);
    assert(free_count(v1) == free_count(v0));
    lemma_write_then_read_round_trip(v1, v2, nm, data);
    assert(file_slot(v2, nm) == i);
    assert(v2.dir[i].block_list.len() == blocks_needed(data.len()));
    assert(free_count(v2) == free_count(v1) - blocks_needed(data.len()));
    assert(free_count(v3) == free_count(v2) + blocks_needed(data.len()));
}

/// The pool is exhausted exactly when no block at all is free: a zero
/// free count is what makes the next allocation, and so the next
/// space-needing `write`, fail with `NoSpace`; freeing a single block
/// raises the count to one, allowing exactly one more allocation.
pub proof fn lemma_exhausted_iff_none_free(v: FsView)
    requires
        v.free.len() == TOTAL_BLOCKS,
    ensures
        (free_count(v) == 0) <==> (forall|b: int| 0 <= b < TOTAL_BLOCKS ==> !v.free[b]),
{
    if exists|b: int| 0 <= b < TOTAL_BLOCKS && v.free[b] {
        let b = choose|b: int| 0 <= b < TOTAL_BLOCKS && v.free[b];
        lemma_count_free_pos(v.free, b, TOTAL_BLOCKS as int);
    } else {
        assert(forall|b: int| 0 <= b < TOTAL_BLOCKS ==> !v.free[b]);
        lemma_count_free_none(v.free, TOTAL_BLOCKS as int);
    }
}

} // verus!
