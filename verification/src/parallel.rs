//! Calls into rayon, and the standard library's stable sort.
use vstd::prelude::*;
use rayon::iter::ParallelIterator;
use rayon::slice::ParallelSlice;
use crate::bitset::BitSet;
use crate::ch::{is_stable_sort, node_shortcuts, Shortcut, CH};

verus! {

/// `rayon::current_num_threads`: the number of threads of the current
/// thread pool. It depends on the machine and the pool, so nothing is
/// promised of it.
#[verifier::external_body]
pub(crate) fn current_num_threads() -> usize {
    rayon::current_num_threads()
}

/// `par_chunks(chunk_size)`, then `flat_map` over the chunks, then `collect`:
/// computes the shortcuts of every node of `set` in parallel, one chunk per
/// task. The contract claims what the verified `CH::shortcuts_for_chunk`
/// promises for each chunk, joined in order: rayon's `collect` into a `Vec`
/// keeps the order of the items, and `par_chunks` cuts the slice into
/// consecutive chunks that cover it.
#[verifier::external_body]
pub(crate) fn shortcuts_in_parallel(
    ch: &CH,
    set: &Vec<(isize, usize)>,
    contracted: &BitSet,
    chunk_size: usize,
) -> (r: Vec<(usize, Vec<Shortcut>)>)
    requires
        ch.wf(),
        chunk_size > 0,
        contracted@.len() >= ch.spec_graph().nodes@.len(),
        forall|i: int| 0 <= i < set@.len() ==> (#[trigger] set@[i]).1 < ch.spec_graph().nodes@.len(),
    ensures
        r@.len() == set@.len(),
        forall|i: int|
            0 <= i < set@.len() ==> (#[trigger] r@[i]).0 == set@[i].1 && r@[i].1@ == node_shortcuts(
                ch.spec_graph().adj(),
                contracted@,
                set@[i].1 as int,
            ),
{
    set.par_chunks(chunk_size).flat_map(|chunk| ch.shortcuts_for_chunk(chunk, contracted)).collect()
}

/// `slice::sort_by_key` with the first component as the key. The standard
/// library documents this sort as stable: afterwards the entries are ordered
/// by key, entries with equal keys keep their relative order, and nothing
/// is added or lost.
#[verifier::external_body]
pub(crate) fn sort_by_edge_difference(v: &mut Vec<(isize, usize)>)
    ensures
        is_stable_sort(old(v)@, final(v)@),
{
    v.sort_by_key(|x| x.0);
}

} // verus!
