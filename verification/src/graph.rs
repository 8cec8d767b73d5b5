use vstd::prelude::*;

verus! {

/// A node of the road graph.
///
/// The coordinates are carried, not computed with: they are kept as the bit
/// patterns of the IEEE-754 single-precision values read from the graph file.
#[derive(Debug)]
pub struct Node {
    pub osm_id: u64,
    pub lat: u32,
    pub lon: u32,
    pub level: u16,
}

impl Node {
    pub fn new(osm_id: u64, lat: u32, lon: u32, level: u16) -> (n: Self)
        ensures
            n.osm_id == osm_id,
            n.lat == lat,
            n.lon == lon,
            n.level == level,
    {
        Node { osm_id, lat, lon, level }
    }

    pub fn set_level(&mut self, level: u16)
        ensures
            final(self).level == level,
            final(self).osm_id == old(self).osm_id,
            final(self).lat == old(self).lat,
            final(self).lon == old(self).lon,
    {
        self.level = level
    }
}

/// Counts the edges created so far; the count of an edge's creation is its id.
/// The count wraps around on overflow, as an atomic `fetch_add` does.
#[derive(Debug)]
pub struct EdgeCounter {
    pub created: i32,
}

impl EdgeCounter {
    /// A counter for which no edge has been created yet.
    pub fn new() -> (c: Self)
        ensures
            c.created == 0,
    {
        EdgeCounter { created: 0 }
    }

    /// The number of edges created so far (wrapping).
    pub fn get_creation_count(&self) -> (n: i32)
        ensures
            n == self.created,
    {
        self.created
    }
}

/// A stored edge. Every edge `u -> v` of the road graph is stored twice: in
/// the list of `u` with `dir == true` and `target == v`, and in the list of
/// `v` with `dir == false` and `target == u`.
#[derive(Debug, Clone, Copy)]
pub struct Edge {
    pub target: u64,
    pub weight: u64,
    pub edge_id_a: Option<u64>,
    pub edge_id_b: Option<u64>,
    pub id: i32,
    pub dir: bool,
}

impl Edge {
    /// Creates a forward edge; its id is the creation count after counting it.
    pub fn new(
        counter: &mut EdgeCounter,
        target: u64,
        weight: u64,
        edge_id_a: Option<u64>,
        edge_id_b: Option<u64>,
    ) -> (e: Self)
        ensures
            final(counter).created == wrapping_i32_succ(old(counter).created),
            e == (Edge {
                target,
                weight,
                edge_id_a,
                edge_id_b,
                id: final(counter).created,
                dir: true,
            }),
    {
        counter.created = counter.created.wrapping_add(1);
        Edge {
            target,
            weight,
            edge_id_a,
            edge_id_b,
            id: counter.get_creation_count(),
            dir: true,
        }
    }

    /// The backward copy of this edge, stored at its target and pointing to `source`.
    pub fn reverse(&self, source: u64) -> (e: Self)
        ensures
            e == (Edge { dir: false, target: source, ..*self }),
    {
        let mut edge = *self;
        edge.dir = false;
        edge.target = source;
        return edge;
    }
}

/// `x + 1` with wrap-around on `i32`.
pub open spec fn wrapping_i32_succ(x: i32) -> i32 {
    if x == i32::MAX {
        i32::MIN
    } else {
        (x + 1) as i32
    }
}

/// The edge `old` after a merge with a new edge of weight `w`: the smaller weight wins.
pub open spec fn lowered(old: Edge, w: u64) -> Edge {
    if old.weight > w {
        Edge { weight: w, ..old }
    } else {
        old
    }
}

/// Whether the stored edge `e` has the same target and direction as `new`.
pub open spec fn same_slot(e: Edge, new: Edge) -> bool {
    e.target == new.target && e.dir == new.dir
}

/// The index of the first edge of `list` in the slot of `new`, or the
/// length of `list` when there is none.
pub open spec fn first_slot(list: Seq<Edge>, new: Edge) -> int
    decreases list.len(),
{
    if list.len() == 0 {
        0
    } else if same_slot(list[0], new) {
        0
    } else {
        1 + first_slot(list.drop_first(), new)
    }
}

pub proof fn lemma_first_slot(list: Seq<Edge>, new: Edge)
    ensures
        0 <= first_slot(list, new) <= list.len(),
        forall|j: int| 0 <= j < first_slot(list, new) ==> !same_slot(#[trigger] list[j], new),
        first_slot(list, new) < list.len() ==> same_slot(list[first_slot(list, new)], new),
    decreases list.len(),
{
    if list.len() > 0 && !same_slot(list[0], new) {
        lemma_first_slot(list.drop_first(), new);
        assert forall|j: int| 0 <= j < first_slot(list, new) implies !same_slot(#[trigger] list[j], new) by {
            if j > 0 {
                assert(list[j] == list.drop_first()[j - 1]);
            }
        }
    }
}

/// The list after merging `new` into it: the first edge in the same slot
/// takes the smaller weight; with no such edge, `new` is appended.
pub open spec fn merge_edge(list: Seq<Edge>, new: Edge) -> Seq<Edge> {
    let i = first_slot(list, new);
    if i < list.len() {
        list.update(i, lowered(list[i], new.weight))
    } else {
        list.push(new)
    }
}

/// The edge lists after merging `edge` into the list of `source` and its
/// backward copy into the list of its target.
pub open spec fn add_edge_spec(adj: Seq<Seq<Edge>>, source: int, edge: Edge) -> Seq<Seq<Edge>> {
    let mid = adj.update(source, merge_edge(adj[source], edge));
    mid.update(edge.target as int, merge_edge(mid[edge.target as int], edge.reverse_spec(source as u64)))
}

pub proof fn lemma_merge_in_range(list: Seq<Edge>, new: Edge, n: int)
    requires
        forall|i: int| 0 <= i < list.len() ==> (#[trigger] list[i]).target < n,
        new.target < n,
    ensures
        forall|i: int| 0 <= i < merge_edge(list, new).len() ==> (#[trigger] merge_edge(list, new)[i]).target < n,
{
    lemma_first_slot(list, new);
}

/// Merging an edge keeps every edge pointing to a node.
pub proof fn lemma_add_edge_in_range(adj: Seq<Seq<Edge>>, source: int, edge: Edge)
    requires
        forall|u: int, i: int|
            0 <= u < adj.len() && 0 <= i < adj[u].len() ==> (#[trigger] adj[u][i]).target < adj.len(),
        0 <= source < adj.len(),
        edge.target < adj.len(),
    ensures
        add_edge_spec(adj, source, edge).len() == adj.len(),
        forall|u: int, i: int|
            0 <= u < adj.len() && 0 <= i < add_edge_spec(adj, source, edge)[u].len() ==> (#[trigger] add_edge_spec(
                adj,
                source,
                edge,
            )[u][i]).target < adj.len(),
{
    let n = adj.len() as int;
    let mid = adj.update(source, merge_edge(adj[source], edge));
    assert forall|i: int| 0 <= i < adj[source].len() implies (#[trigger] adj[source][i]).target < n by {
    }
    lemma_merge_in_range(adj[source], edge, n);
    let t = edge.target as int;
    assert forall|i: int| 0 <= i < mid[t].len() implies (#[trigger] mid[t][i]).target < n by {
    }
    lemma_merge_in_range(mid[t], edge.reverse_spec(source as u64), n);
}

/// The number of forward edges in a list.
pub open spec fn forward_count(list: Seq<Edge>) -> nat {
    list.filter(|e: Edge| e.dir).len()
}

/// The number of forward edges in the first `k` lists.
pub open spec fn forward_total(adj: Seq<Seq<Edge>>, k: int) -> nat
    decreases k,
{
    if k <= 0 {
        0
    } else {
        forward_total(adj, k - 1) + forward_count(adj[k - 1])
    }
}

#[derive(Debug)]
pub struct Graph {
    pub nodes: Vec<Node>,
    pub edges: Vec<Vec<Edge>>,
}

impl Graph {
    /// The edge lists, one per node.
    pub open spec fn adj(&self) -> Seq<Seq<Edge>> {
        self.edges@.map_values(|l: Vec<Edge>| l@)
    }

    /// One edge list per node, and every edge points to a node.
    pub open spec fn well_formed(&self) -> bool {
        &&& self.edges@.len() == self.nodes@.len()
        &&& forall|u: int, i: int|
            0 <= u < self.edges@.len() && 0 <= i < self.edges@[u]@.len() ==> (
            #[trigger] self.edges@[u]@[i]).target < self.nodes@.len()
    }

    /// The number of forward edges stored in the graph.
    pub open spec fn spec_num_edges(&self) -> nat {
        forward_total(self.adj(), self.adj().len() as int)
    }

    pub fn new(nodes: Vec<Node>, edges: Vec<Vec<Edge>>) -> (g: Self)
        ensures
            g.nodes@ == nodes@,
            g.edges@ == edges@,
    {
        Graph { nodes, edges }
    }

    pub fn num_nodes(&self) -> (n: usize)
        ensures
            n == self.nodes@.len(),
    {
        self.nodes.len()
    }

    /// The number of forward edges (each road edge is counted once).
    pub fn num_edges(&self) -> (n: usize)
        requires
            self.spec_num_edges() <= usize::MAX,
        ensures
            n == self.spec_num_edges(),
    {
        let mut total: usize = 0;
        let mut u: usize = 0;
        while u < self.edges.len()
            invariant
                u <= self.edges@.len(),
                total == forward_total(self.adj(), u as int),
                self.spec_num_edges() <= usize::MAX,
            decreases self.edges@.len() - u,
        {
            let c = count_forward(&self.edges[u]);
            proof {
                assert(self.adj()[u as int] == self.edges@[u as int]@);
                lemma_forward_total_monotone(self.adj(), u as int + 1, self.adj().len() as int);
            }
            total = total + c;
            u = u + 1;
        }
        total
    }

    /// Merges `edge` into the list of `source` and its backward copy into the
    /// list of `edge.target`: an edge with the same target and direction keeps
    /// the smaller weight, and otherwise the edge is appended.
    pub fn add_edge(&mut self, source: usize, edge: Edge)
        requires
            source < old(self).edges@.len(),
            edge.target < old(self).edges@.len(),
        ensures
            final(self).nodes@ == old(self).nodes@,
            final(self).adj() == add_edge_spec(old(self).adj(), source as int, edge),
    {
        let n = self.edges.len();
        let reverse_edge = edge.reverse(source as u64);
        let ghost mid = old(self).adj().update(
            source as int,
            merge_edge(old(self).adj()[source as int], edge),
        );
        merge_into(&mut self.edges[source], edge);
        assert(self.adj() =~= mid);
        let t = edge.target as usize;
        assert(t as int == edge.target as int);
        merge_into(&mut self.edges[t], reverse_edge);
        proof {
            let fin = mid.update(
                edge.target as int,
                merge_edge(mid[edge.target as int], edge.reverse_spec(source as u64)),
            );
            assert(self.adj() =~= fin);
        }
    }

    pub fn node_at(&self, index: usize) -> (n: &Node)
        requires
            index < self.nodes@.len(),
        ensures
            *n == self.nodes@[index as int],
    {
        &self.nodes[index]
    }

    pub fn node_at_mut(&mut self, index: usize) -> (n: &mut Node)
        requires
            index < old(self).nodes@.len(),
        ensures
            *n == old(self).nodes@[index as int],
            final(self).nodes@ == old(self).nodes@.update(index as int, *final(n)),
            final(self).edges@ == old(self).edges@,
    {
        &mut self.nodes[index]
    }

    /// The forward edges stored at `node`, in stored order.
    pub fn outgoing_edges(&self, node: usize) -> (r: Vec<Edge>)
        requires
            node < self.edges@.len(),
        ensures
            r@ == self.adj()[node as int].filter(|e: Edge| e.dir),
    {
        filter_dir(&self.edges[node], true)
    }

    /// The backward edges stored at `node`, in stored order.
    pub fn incoming_edges(&self, node: usize) -> (r: Vec<Edge>)
        requires
            node < self.edges@.len(),
        ensures
            r@ == self.adj()[node as int].filter(|e: Edge| !e.dir),
    {
        filter_dir(&self.edges[node], false)
    }
}

impl Edge {
    pub open spec fn reverse_spec(self, source: u64) -> Edge {
        Edge { dir: false, target: source, ..self }
    }
}

proof fn lemma_forward_total_monotone(adj: Seq<Seq<Edge>>, a: int, b: int)
    requires
        0 <= a <= b,
    ensures
        forward_total(adj, a) <= forward_total(adj, b),
    decreases b - a,
{
    if a < b {
        lemma_forward_total_monotone(adj, a, b - 1);
    }
}

fn count_forward(list: &Vec<Edge>) -> (n: usize)
    ensures
        n == forward_count(list@),
{
    let r = filter_dir(list, true);
    proof {
        assert(r@ =~= list@.filter(|e: Edge| e.dir));
    }
    r.len()
}

/// The edges of `list` whose direction is `dir`, in order.
fn filter_dir(list: &Vec<Edge>, dir: bool) -> (r: Vec<Edge>)
    ensures
        dir ==> r@ == list@.filter(|e: Edge| e.dir),
        !dir ==> r@ == list@.filter(|e: Edge| !e.dir),
{
    let mut r: Vec<Edge> = Vec::new();
    let mut i: usize = 0;
    while i < list.len()
        invariant
            i <= list@.len(),
            r@ == list@.take(i as int).filter(|e: Edge| e.dir == dir),
        decreases list@.len() - i,
    {
        proof {
            reveal_with_fuel(Seq::<_>::filter, 1);
            assert(list@.take(i as int + 1).drop_last() =~= list@.take(i as int));
        }
        if list[i].dir == dir {
            r.push(list[i]);
        }
        proof {
            assert(list@.take(i as int + 1).last() == list@[i as int]);
        }
        i = i + 1;
    }
    proof {
        assert(list@.take(list@.len() as int) =~= list@);
        if dir {
            assert((|e: Edge| e.dir == dir) =~= (|e: Edge| e.dir));
        } else {
            assert((|e: Edge| e.dir == dir) =~= (|e: Edge| !e.dir));
        }
    }
    r
}

/// Merges `new` into `list` as `merge_edge` describes.
fn merge_into(list: &mut Vec<Edge>, new: Edge)
    ensures
        final(list)@ == merge_edge(old(list)@, new),
{
    let mut i: usize = 0;
    while i < list.len()
        invariant
            i <= list@.len(),
            list@ == old(list)@,
            forall|j: int| 0 <= j < i ==> !same_slot(#[trigger] list@[j], new),
        decreases list@.len() - i,
    {
        if list[i].target == new.target && list[i].dir == new.dir {
            proof {
                let l = old(list)@;
                lemma_first_slot(l, new);
                let k = first_slot(l, new);
                if k < i as int {
                    assert(!same_slot(l[k], new));
                }
                if k > i as int {
                    assert(!same_slot(l[i as int], new));
                }
            }
            if list[i].weight > new.weight {
                list[i].weight = new.weight;
            }
            return;
        }
        i = i + 1;
    }
    proof {
        lemma_first_slot(old(list)@, new);
        let k = first_slot(old(list)@, new);
        if k < old(list)@.len() {
            assert(!same_slot(old(list)@[k], new));
        }
    }
    list.push(new);
}

/// The weights of the edges of `list` in direction `dir` that point to `v`,
/// in the order they are stored.
pub open spec fn slot_weights(list: Seq<Edge>, dir: bool, v: int) -> Seq<u64>
    decreases list.len(),
{
    if list.len() == 0 {
        seq![]
    } else {
        let rest = slot_weights(list.drop_first(), dir, v);
        if list[0].dir == dir && list[0].target == v {
            seq![list[0].weight] + rest
        } else {
            rest
        }
    }
}

/// The weights of a slot after merging an edge of weight `w` into it: the
/// first takes the smaller weight, or `w` is the only one.
pub open spec fn merged_weights(ws: Seq<u64>, w: u64) -> Seq<u64> {
    if ws.len() > 0 {
        ws.update(0, if ws[0] > w { w } else { ws[0] })
    } else {
        seq![w]
    }
}

/// Every forward edge has its backward copy, in order: the forward edges
/// stored at `u` that point to `v` weigh, one by one, what the backward
/// edges stored at `v` that point to `u` weigh.
pub open spec fn mirrored(adj: Seq<Seq<Edge>>) -> bool {
    forall|u: int, v: int|
        0 <= u < adj.len() && 0 <= v < adj.len() ==> #[trigger] slot_weights(adj[u], true, v) == slot_weights(
            adj[v],
            false,
            u,
        )
}

/// Merging `new` into a list changes only the weights of its own slot.
proof fn lemma_merge_weights(list: Seq<Edge>, new: Edge, dir: bool, v: int)
    ensures
        slot_weights(merge_edge(list, new), dir, v) == if dir == new.dir && v == new.target {
            merged_weights(slot_weights(list, dir, v), new.weight)
        } else {
            slot_weights(list, dir, v)
        },
    decreases list.len(),
{
    let m = merge_edge(list, new);
    if list.len() == 0 {
        assert(m =~= seq![new]);
        assert(m.drop_first() =~= Seq::<Edge>::empty());
        assert(slot_weights(m.drop_first(), dir, v) =~= Seq::<u64>::empty());
        assert(slot_weights(list, dir, v) =~= Seq::<u64>::empty());
    } else if same_slot(list[0], new) {
        assert(first_slot(list, new) == 0);
        assert(m == list.update(0, lowered(list[0], new.weight)));
        assert(m.drop_first() =~= list.drop_first());
        let rest = slot_weights(list.drop_first(), dir, v);
        if dir == new.dir && v == new.target {
            assert(slot_weights(list, dir, v) == seq![list[0].weight] + rest);
            assert(slot_weights(m, dir, v) =~= merged_weights(slot_weights(list, dir, v), new.weight));
        }
    } else {
        let tail = list.drop_first();
        lemma_merge_weights(tail, new, dir, v);
        assert(first_slot(list, new) == 1 + first_slot(tail, new));
        lemma_first_slot(tail, new);
        let mt = merge_edge(tail, new);
        assert(m =~= seq![list[0]] + mt) by {
            let i = first_slot(tail, new);
            if i < tail.len() {
                assert(tail[i] == list[i + 1]);
            }
        }
        assert(m.drop_first() =~= mt);
        assert(m[0] == list[0]);
    }
}

/// Adding an edge keeps a mirrored graph mirrored: its backward copy lands
/// in the matching slot at the other end.
pub proof fn lemma_add_edge_mirrored(adj: Seq<Seq<Edge>>, u: int, e: Edge)
    requires
        mirrored(adj),
        e.dir,
        0 <= u < adj.len(),
        u <= u64::MAX,
        0 <= e.target < adj.len(),
    ensures
        mirrored(add_edge_spec(adj, u, e)),
{
    let t = e.target as int;
    let rev = e.reverse_spec(u as u64);
    let mid = adj.update(u, merge_edge(adj[u], e));
    let fin = add_edge_spec(adj, u, e);
    assert(fin == mid.update(t, merge_edge(mid[t], rev)));
    assert forall|x: int, y: int, d: bool| 0 <= x < adj.len() implies #[trigger] slot_weights(fin[x], d, y) == ({
        let base = slot_weights(adj[x], d, y);
        let s1 = if x == u && d && y == t { merged_weights(base, e.weight) } else { base };
        if x == t && !d && y == u { merged_weights(s1, e.weight) } else { s1 }
    }) by {
        if x == u {
            lemma_merge_weights(adj[u], e, d, y);
        }
        if x == t {
            lemma_merge_weights(mid[t], rev, d, y);
        }
    }
    assert forall|x: int, y: int| 0 <= x < fin.len() && 0 <= y < fin.len() implies #[trigger] slot_weights(fin[x], true, y)
        == slot_weights(fin[y], false, x) by {
        assert(slot_weights(adj[x], true, y) == slot_weights(adj[y], false, x));
        assert(slot_weights(fin[x], true, y) == slot_weights(fin[x], true, y));
        assert(slot_weights(fin[y], false, x) == slot_weights(fin[y], false, x));
    }
}

} // verus!
