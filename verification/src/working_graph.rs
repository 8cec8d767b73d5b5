//! A mutable graph for contraction: separate outgoing and incoming lists,
//! contracted flags and levels per node.
use vstd::prelude::*;

verus! {

#[derive(Debug, Clone)]
pub struct WorkingGraph {
    pub n: usize,
    pub outgoing: Vec<Vec<Edge>>,
    pub incoming: Vec<Vec<Edge>>,
    pub contracted: Vec<bool>,
    pub levels: Vec<u64>,
}

#[derive(Debug, Clone, Copy, PartialEq, Eq)]
pub struct Edge {
    pub target: usize,
    pub weight: u64,
    pub is_shortcut: bool,
    pub middle: Option<usize>,
}

impl WorkingGraph {
    /// A graph with the given lists and levels and no node contracted.
    pub fn new(n: usize, outgoing: Vec<Vec<Edge>>, incoming: Vec<Vec<Edge>>, levels: Vec<u64>) -> (g: Self)
        ensures
            g.n == n,
            g.outgoing@ == outgoing@,
            g.incoming@ == incoming@,
            g.levels@ == levels@,
            g.contracted@ == Seq::new(n as nat, |i: int| false),
    {
        let mut contracted: Vec<bool> = Vec::new();
        let mut i: usize = 0;
        while i < n
            invariant
                i <= n,
                contracted@ == Seq::new(i as nat, |j: int| false),
            decreases n - i,
        {
            contracted.push(false);
            i = i + 1;
            proof {
                assert(contracted@ =~= Seq::new(i as nat, |j: int| false));
            }
        }
        Self { n, outgoing, incoming, contracted, levels }
    }

    pub fn outgoing(&self, u: usize) -> (r: &Vec<Edge>)
        requires
            u < self.outgoing@.len(),
        ensures
            *r == self.outgoing@[u as int],
    {
        &self.outgoing[u]
    }

    pub fn incoming(&self, u: usize) -> (r: &Vec<Edge>)
        requires
            u < self.incoming@.len(),
        ensures
            *r == self.incoming@[u as int],
    {
        &self.incoming[u]
    }

    pub fn is_contracted(&self, u: usize) -> (b: bool)
        requires
            u < self.contracted@.len(),
        ensures
            b == self.contracted@[u as int],
    {
        self.contracted[u]
    }

    /// Marks `u` contracted; nothing else changes.
    pub fn contract(&mut self, u: usize)
        requires
            u < old(self).contracted@.len(),
        ensures
            final(self).contracted@ == old(self).contracted@.update(u as int, true),
            changed_by(*old(self), *final(self), Change::Contract(u)),
            final(self).n == old(self).n,
            final(self).outgoing@ == old(self).outgoing@,
            final(self).incoming@ == old(self).incoming@,
            final(self).levels@ == old(self).levels@,
    {
        self.contracted.set(u, true);
    }

    /// Sets the level of `u`; nothing else changes.
    pub fn set_level(&mut self, u: usize, level: u64)
        requires
            u < old(self).levels@.len(),
        ensures
            final(self).levels@ == old(self).levels@.update(u as int, level),
            changed_by(*old(self), *final(self), Change::SetLevel(u, level)),
            final(self).n == old(self).n,
            final(self).outgoing@ == old(self).outgoing@,
            final(self).incoming@ == old(self).incoming@,
            final(self).contracted@ == old(self).contracted@,
    {
        self.levels.set(u, level);
    }

    pub fn level(&self, u: usize) -> (l: u64)
        requires
            u < self.levels@.len(),
        ensures
            l == self.levels@[u as int],
    {
        self.levels[u]
    }

    /// Adds the shortcut `from -> to` through `middle`: appended to the
    /// outgoing list of `from` and to the incoming list of `to`.
    pub fn add_shortcut(&mut self, from: usize, to: usize, weight: u64, middle: usize)
        requires
            from < old(self).outgoing@.len(),
            to < old(self).incoming@.len(),
        ensures
            ({
                let e = Edge { target: to, weight, is_shortcut: true, middle: Some(middle) };
                &&& final(self).outgoing@.len() == old(self).outgoing@.len()
                &&& final(self).incoming@.len() == old(self).incoming@.len()
                &&& forall|u: int|
                    0 <= u < old(self).outgoing@.len() ==> (#[trigger] final(self).outgoing@[u])@ == if u == from {
                        old(self).outgoing@[u]@.push(e)
                    } else {
                        old(self).outgoing@[u]@
                    }
                &&& forall|u: int|
                    0 <= u < old(self).incoming@.len() ==> (#[trigger] final(self).incoming@[u])@ == if u == to {
                        old(self).incoming@[u]@.push(e)
                    } else {
                        old(self).incoming@[u]@
                    }
            }),
            changed_by(*old(self), *final(self), Change::AddShortcut(from, to, weight, middle)),
            final(self).n == old(self).n,
            final(self).contracted@ == old(self).contracted@,
            final(self).levels@ == old(self).levels@,
    {
        let edge = Edge { target: to, weight, is_shortcut: true, middle: Some(middle) };
        self.outgoing[from].push(edge);
        self.incoming[to].push(edge);
    }
}

/// A call that changes a working graph: `contract`, `set_level` or
/// `add_shortcut`, with its arguments.
pub enum Change {
    Contract(usize),
    SetLevel(usize, u64),
    AddShortcut(usize, usize, u64, usize),
}

/// What the call `c` does to the contracted flags and the levels of `g1`,
/// giving `g2`.
pub open spec fn changed_by(g1: WorkingGraph, g2: WorkingGraph, c: Change) -> bool {
    match c {
        Change::Contract(u) => u < g1.contracted@.len() && g2.contracted@ == g1.contracted@.update(u as int, true)
            && g2.levels@ == g1.levels@,
        Change::SetLevel(u, l) => u < g1.levels@.len() && g2.levels@ == g1.levels@.update(u as int, l)
            && g2.contracted@ == g1.contracted@,
        Change::AddShortcut(_, _, _, _) => g2.contracted@ == g1.contracted@ && g2.levels@ == g1.levels@,
    }
}

/// `gs` are the states of a working graph along the calls `cs`: each call
/// takes one state to the next.
pub open spec fn run_of(gs: Seq<WorkingGraph>, cs: Seq<Change>) -> bool {
    &&& gs.len() == cs.len() + 1
    &&& forall|k: int| 0 <= k < cs.len() ==> changed_by(gs[k], gs[k + 1], #[trigger] cs[k])
}

/// The level that the last call `set_level(u, _)` among `cs` gave, or
/// `init` when there is none.
pub open spec fn last_level(cs: Seq<Change>, u: usize, init: u64) -> u64
    decreases cs.len(),
{
    if cs.len() == 0 {
        init
    } else {
        match cs.last() {
            Change::SetLevel(x, l) => if x == u {
                l
            } else {
                last_level(cs.drop_last(), u, init)
            },
            _ => last_level(cs.drop_last(), u, init),
        }
    }
}

/// After a run of calls, a node is contracted exactly when it was at the
/// start or one of the calls contracted it; a graph made by `new` starts
/// with no node contracted.
pub proof fn lemma_contracted_after(gs: Seq<WorkingGraph>, cs: Seq<Change>, v: usize)
    requires
        run_of(gs, cs),
        v < gs[0].contracted@.len(),
    ensures
        gs.last().contracted@.len() == gs[0].contracted@.len(),
        gs.last().contracted@[v as int] == (gs[0].contracted@[v as int] || exists|k: int|
            0 <= k < cs.len() && #[trigger] cs[k] == Change::Contract(v)),
    decreases cs.len(),
{
    if cs.len() > 0 {
        let g2 = gs.drop_last();
        let c2 = cs.drop_last();
        assert forall|k: int| 0 <= k < c2.len() implies changed_by(g2[k], g2[k + 1], #[trigger] c2[k]) by {
            assert(c2[k] == cs[k]);
        }
        lemma_contracted_after(g2, c2, v);
        let last = cs.len() - 1;
        assert(changed_by(gs[last], gs[last + 1], cs[last]));
        assert(gs.last() == gs[last + 1]);
        assert(g2.last() == gs[last]);
        assert(g2[0] == gs[0]);
        if exists|k: int| 0 <= k < c2.len() && #[trigger] c2[k] == Change::Contract(v) {
            let k = choose|k: int| 0 <= k < c2.len() && #[trigger] c2[k] == Change::Contract(v);
            assert(cs[k] == c2[k]);
        }
        if exists|k: int| 0 <= k < cs.len() && #[trigger] cs[k] == Change::Contract(v) {
            let k = choose|k: int| 0 <= k < cs.len() && #[trigger] cs[k] == Change::Contract(v);
            if k < last {
                assert(c2[k] == cs[k]);
            }
        }
    } else {
        assert(gs.last() == gs[0]);
    }
}

/// After a run of calls, the level of a node is the one that the last
/// `set_level` call for it gave, or the level it started with.
pub proof fn lemma_level_after(gs: Seq<WorkingGraph>, cs: Seq<Change>, u: usize)
    requires
        run_of(gs, cs),
        u < gs[0].levels@.len(),
    ensures
        gs.last().levels@.len() == gs[0].levels@.len(),
        gs.last().levels@[u as int] == last_level(cs, u, gs[0].levels@[u as int]),
    decreases cs.len(),
{
    if cs.len() > 0 {
        let g2 = gs.drop_last();
        let c2 = cs.drop_last();
        assert forall|k: int| 0 <= k < c2.len() implies changed_by(g2[k], g2[k + 1], #[trigger] c2[k]) by {
            assert(c2[k] == cs[k]);
        }
        lemma_level_after(g2, c2, u);
        let last = cs.len() - 1;
        assert(changed_by(gs[last], gs[last + 1], cs[last]));
        assert(gs.last() == gs[last + 1]);
        assert(g2.last() == gs[last]);
        assert(g2[0] == gs[0]);
        assert(cs.last() == cs[last]);
    } else {
        assert(gs.last() == gs[0]);
    }
}

} // verus!
