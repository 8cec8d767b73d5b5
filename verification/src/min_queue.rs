//! A priority queue of search entries that hands out the entry with the
//! smallest weight first and, among equal weights, the one with the largest id.
use vstd::prelude::*;
use crate::dijkstra::Distance;

verus! {

/// Whether `a` leaves the queue no later than `b`: a smaller weight, or an
/// equal weight and an id at least as large.
pub open spec fn pops_first(a: Distance, b: Distance) -> bool {
    a.weight < b.weight || (a.weight == b.weight && a.id >= b.id)
}

pub struct MinQueue {
    entries: Vec<Distance>,
}

impl MinQueue {
    /// The waiting entries, in no particular order.
    pub closed spec fn view(&self) -> Seq<Distance> {
        self.entries@
    }

    pub fn new() -> (q: Self)
        ensures
            q@ == Seq::<Distance>::empty(),
    {
        MinQueue { entries: Vec::new() }
    }

    pub fn len(&self) -> (n: usize)
        ensures
            n == self@.len(),
    {
        self.entries.len()
    }

    pub fn is_empty(&self) -> (b: bool)
        ensures
            b == (self@.len() == 0),
    {
        self.entries.len() == 0
    }

    pub fn push(&mut self, entry: Distance)
        ensures
            final(self)@ == old(self)@.push(entry),
    {
        self.entries.push(entry);
    }

    pub fn clear(&mut self)
        ensures
            final(self)@ == Seq::<Distance>::empty(),
    {
        self.entries.clear();
    }

    /// Removes and returns an entry that leaves no later than any other.
    pub fn pop(&mut self) -> (r: Option<Distance>)
        ensures
            r is None ==> old(self)@.len() == 0 && final(self)@ == old(self)@,
            r matches Some(e) ==> exists|i: int|
                0 <= i < old(self)@.len() && old(self)@[i] == e && final(self)@ == old(self)@.remove(
                    i,
                ),
            r matches Some(e) ==> forall|j: int|
                0 <= j < old(self)@.len() ==> pops_first(e, #[trigger] old(self)@[j]),
    {
        let n = self.entries.len();
        if n == 0 {
            return None;
        }
        let mut best: usize = 0;
        let mut k: usize = 1;
        while k < n
            invariant
                n == self.entries@.len(),
                self.entries@ == old(self)@,
                best < k <= n,
                forall|j: int| 0 <= j < k ==> pops_first(self.entries@[best as int], #[trigger] self.entries@[j]),
            decreases n - k,
        {
            let a = self.entries[k];
            let b = self.entries[best];
            if a.weight < b.weight || (a.weight == b.weight && a.id > b.id) {
                best = k;
            }
            k = k + 1;
        }
        let e = self.entries.remove(best);
        Some(e)
    }
}

/// An entry that was waiting stays waiting when another entry is pushed.
pub proof fn lemma_push_keeps(s: Seq<Distance>, y: Distance, x: Distance)
    ensures
        s.contains(x) ==> s.push(y).contains(x),
        s.push(y).contains(y),
{
    if s.contains(x) {
        let i = choose|i: int| 0 <= i < s.len() && s[i] == x;
        assert(s.push(y)[i] == x);
    }
    assert(s.push(y)[s.len() as int] == y);
}

/// An entry that was waiting stays waiting when a different entry is removed.
pub proof fn lemma_remove_keeps(s: Seq<Distance>, i: int, x: Distance)
    requires
        0 <= i < s.len(),
        s.contains(x),
        s[i] != x,
    ensures
        s.remove(i).contains(x),
{
    let j = choose|j: int| 0 <= j < s.len() && s[j] == x;
    if j < i {
        assert(s.remove(i)[j] == x);
    } else {
        assert(s.remove(i)[j - 1] == x);
    }
}

} // verus!
