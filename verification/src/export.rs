//! Writing a graph as text in the graph file format, and what reading that
//! text back gives.
use vstd::prelude::*;
use crate::fmi::{as_u64, build_adj, edge_line, forward_from, forward_pairs, lemma_forward_pairs_len, node_line, spec_parse_fmi, EdgeRecord};
use crate::graph::{forward_total, Edge, Graph, Node};
use crate::text::{
    number_text,
    views, space_suffix, all_digits, content_lines, digits_part, digits_value, is_content, is_digit, is_space, line_fold,
    lines_of, parse_unsigned, strip_cr, token_fold, tokens,
};

verus! {

/// The decimal digits of `n`, most significant first.
pub open spec fn decimal(n: nat) -> Seq<u8>
    decreases n,
{
    if n < 10 {
        seq![(n + 48) as u8]
    } else {
        decimal(n / 10).push((n % 10 + 48) as u8)
    }
}

/// Printable ASCII text without spaces, of at least one byte.
pub open spec fn is_word(w: Seq<u8>) -> bool {
    w.len() > 0 && forall|i: int| 0 <= i < w.len() ==> 32u8 < #[trigger] w[i] < 128u8
}

/// The digits of a number form a word that reads back as the number.
pub proof fn lemma_decimal(n: nat)
    ensures
        decimal(n).len() > 0,
        all_digits(decimal(n)),
        digits_value(decimal(n)) == n,
        is_word(decimal(n)),
        forall|max: int| n <= max ==> #[trigger] parse_unsigned(decimal(n), max) == Some(n as int),
    decreases n,
{
    let d = decimal(n);
    let last = (n % 10 + 48) as u8;
    assert(last == n % 10 + 48);
    if n >= 10 {
        lemma_decimal(n / 10);
        let p = decimal(n / 10);
        assert(d.drop_last() =~= p);
        assert(d.last() == last);
        assert(digits_value(d) == 10 * digits_value(p) + (last - 48));
        assert forall|i: int| 0 <= i < d.len() implies is_digit(#[trigger] d[i]) by {
            if i < p.len() {
                assert(d[i] == p[i]);
            }
        }
    } else {
        assert(d.drop_last() =~= Seq::<u8>::empty());
        assert(digits_value(d.drop_last()) == 0);
        assert(digits_value(d) == 10 * digits_value(d.drop_last()) + (d.last() - 48));
    }
    assert(digits_part(d) == d);
}

/// The words of `ws` with one space between each two.
pub open spec fn spaced(ws: Seq<Seq<u8>>) -> Seq<u8>
    decreases ws.len(),
{
    if ws.len() == 0 {
        seq![]
    } else if ws.len() == 1 {
        ws[0]
    } else {
        spaced(ws.drop_last()) + seq![32u8] + ws.last()
    }
}

proof fn lemma_token_fold_word(t: Seq<u8>, w: Seq<u8>)
    requires
        forall|i: int| 0 <= i < w.len() ==> 32u8 < #[trigger] w[i] < 128u8,
    ensures
        token_fold(t + w) == (token_fold(t).0, token_fold(t).1 + w),
    decreases w.len(),
{
    if w.len() == 0 {
        assert(t + w =~= t);
        assert(token_fold(t).1 + w =~= token_fold(t).1);
    } else {
        let w0 = w.drop_last();
        assert forall|i: int| 0 <= i < w0.len() implies 32u8 < #[trigger] w0[i] < 128u8 by {
            assert(w0[i] == w[i]);
        }
        lemma_token_fold_word(t, w0);
        let tw = t + w;
        assert(tw.drop_last() =~= t + w0);
        assert(tw.last() == w[w.len() - 1]);
        if tw.len() >= 3 {
            assert(tw.subrange(tw.len() - 3, tw.len() as int)[2] == tw.last());
        }
        if tw.len() >= 2 {
            assert(tw.subrange(tw.len() - 2, tw.len() as int)[1] == tw.last());
        }
        assert(space_suffix(tw) == 0);
        assert((token_fold(t).1 + w0).push(w.last()) =~= token_fold(t).1 + w);
    }
}

proof fn lemma_token_fold_spaced(ws: Seq<Seq<u8>>)
    requires
        ws.len() > 0,
        forall|i: int| 0 <= i < ws.len() ==> is_word(#[trigger] ws[i]),
    ensures
        token_fold(spaced(ws)) == (ws.drop_last(), ws.last()),
    decreases ws.len(),
{
    let e = Seq::<u8>::empty();
    assert(token_fold(e) == (Seq::<Seq<u8>>::empty(), e));
    assert(is_word(ws[ws.len() - 1]));
    if ws.len() == 1 {
        lemma_token_fold_word(e, ws[0]);
        assert(e + ws[0] =~= ws[0]);
        assert(ws.drop_last() =~= Seq::<Seq<u8>>::empty());
    } else {
        let prev = ws.drop_last();
        assert forall|i: int| 0 <= i < prev.len() implies is_word(#[trigger] prev[i]) by {
            assert(prev[i] == ws[i]);
        }
        lemma_token_fold_spaced(prev);
        assert(is_word(prev[prev.len() - 1]));
        let t = spaced(prev) + seq![32u8];
        assert(t.drop_last() =~= spaced(prev));
        assert(t.last() == 32u8);
        assert(prev.drop_last().push(prev.last()) =~= prev);
        assert(token_fold(t) == (prev, e));
        lemma_token_fold_word(t, ws.last());
        assert(e + ws.last() =~= ws.last());
    }
}

/// Words joined by single spaces split back into the same words.
pub proof fn lemma_tokens_spaced(ws: Seq<Seq<u8>>)
    requires
        forall|i: int| 0 <= i < ws.len() ==> is_word(#[trigger] ws[i]),
    ensures
        tokens(spaced(ws)) == ws,
{
    if ws.len() == 0 {
        assert(token_fold(Seq::<u8>::empty()) == (Seq::<Seq<u8>>::empty(), Seq::<u8>::empty()));
    } else {
        lemma_token_fold_spaced(ws);
        assert(is_word(ws[ws.len() - 1]));
        assert(ws.drop_last().push(ws.last()) =~= ws);
    }
}

/// Lines, each ended by a line feed.
pub open spec fn joined_lines(ls: Seq<Seq<u8>>) -> Seq<u8>
    decreases ls.len(),
{
    if ls.len() == 0 {
        seq![]
    } else {
        joined_lines(ls.drop_last()) + ls.last().push(10u8)
    }
}

/// A line that reads back as itself: it holds no line feed and does not end
/// with a carriage return.
pub open spec fn is_plain_line(l: Seq<u8>) -> bool {
    &&& forall|i: int| 0 <= i < l.len() ==> #[trigger] l[i] != 10u8
    &&& !(l.len() > 0 && l.last() == 13u8)
}

proof fn lemma_line_fold_piece(t: Seq<u8>, l: Seq<u8>)
    requires
        forall|i: int| 0 <= i < l.len() ==> #[trigger] l[i] != 10u8,
    ensures
        line_fold(t + l) == (line_fold(t).0, line_fold(t).1 + l),
    decreases l.len(),
{
    if l.len() == 0 {
        assert(t + l =~= t);
        assert(line_fold(t).1 + l =~= line_fold(t).1);
    } else {
        let l0 = l.drop_last();
        assert forall|i: int| 0 <= i < l0.len() implies #[trigger] l0[i] != 10u8 by {
            assert(l0[i] == l[i]);
        }
        lemma_line_fold_piece(t, l0);
        assert((t + l).drop_last() =~= t + l0);
        assert((t + l).last() == l[l.len() - 1]);
        assert((line_fold(t).1 + l0).push(l.last()) =~= line_fold(t).1 + l);
    }
}

proof fn lemma_line_fold_joined(ls: Seq<Seq<u8>>)
    requires
        forall|i: int| 0 <= i < ls.len() ==> is_plain_line(#[trigger] ls[i]),
    ensures
        line_fold(joined_lines(ls)) == (ls, Seq::<u8>::empty()),
    decreases ls.len(),
{
    if ls.len() == 0 {
        assert(line_fold(Seq::<u8>::empty()) == (Seq::<Seq<u8>>::empty(), Seq::<u8>::empty()));
    } else {
        let prev = ls.drop_last();
        assert forall|i: int| 0 <= i < prev.len() implies is_plain_line(#[trigger] prev[i]) by {
            assert(prev[i] == ls[i]);
        }
        lemma_line_fold_joined(prev);
        let l = ls.last();
        assert(is_plain_line(ls[ls.len() - 1]));
        let t = joined_lines(prev);
        lemma_line_fold_piece(t, l);
        let u = t + l;
        assert(joined_lines(ls) =~= u.push(10u8));
        assert(u.push(10u8).drop_last() =~= u);
        assert(Seq::<u8>::empty() + l =~= l);
        assert(strip_cr(l) == l);
        assert(prev.push(l) =~= ls);
    }
}

/// Lines joined with line feeds split back into the same lines.
pub proof fn lemma_lines_joined(ls: Seq<Seq<u8>>)
    requires
        forall|i: int| 0 <= i < ls.len() ==> is_plain_line(#[trigger] ls[i]),
    ensures
        lines_of(joined_lines(ls)) == ls,
{
    lemma_line_fold_joined(ls);
}

proof fn lemma_filter_all(s: Seq<Seq<u8>>, keep: bool)
    requires
        forall|i: int| 0 <= i < s.len() ==> is_content(#[trigger] s[i]) == keep,
    ensures
        s.filter(|l: Seq<u8>| is_content(l)) == if keep { s } else { Seq::<Seq<u8>>::empty() },
    decreases s.len(),
{
    reveal_with_fuel(Seq::<_>::filter, 1);
    if s.len() > 0 {
        let s0 = s.drop_last();
        assert forall|i: int| 0 <= i < s0.len() implies is_content(#[trigger] s0[i]) == keep by {
            assert(s0[i] == s[i]);
        }
        lemma_filter_all(s0, keep);
        assert(is_content(s[s.len() - 1]) == keep);
        if keep {
            assert(s0.push(s.last()) =~= s);
        }
    }
}


/// Appends the decimal digits of `n` to `out`.
fn push_unsigned(out: &mut Vec<u8>, n: u64)
    ensures
        final(out)@ == old(out)@ + decimal(n as nat),
    decreases n,
{
    if n >= 10 {
        push_unsigned(out, n / 10);
    }
    let digit = (n % 10) as u8 + 48;
    out.push(digit);
    proof {
        if n >= 10 {
            assert(decimal(n as nat) == decimal((n / 10) as nat).push(digit));
        }
        assert(out@ =~= old(out)@ + decimal(n as nat));
    }
}

/// An optional shortcut id as a field: the id's digits, or `None`, which
/// does not read as a number.
pub open spec fn show_option(x: Option<u64>) -> Seq<u8> {
    match x {
        Some(v) => decimal(v as nat),
        None => seq![78u8, 111u8, 110u8, 101u8],
    }
}

/// The fields of a node line: the node's number, its OSM id, the two
/// coordinates, a height of 0 and the level.
pub open spec fn node_words(i: int, node: Node, lat: Seq<u8>, lon: Seq<u8>) -> Seq<Seq<u8>> {
    seq![decimal(i as nat), decimal(node.osm_id as nat), lat, lon, seq![48u8], decimal(node.level as nat)]
}

/// The fields of an edge line: source, target, weight, a type and a speed
/// of 0, and the two shortcut ids.
pub open spec fn edge_words(u: usize, e: Edge) -> Seq<Seq<u8>> {
    seq![
        decimal(u as nat),
        decimal(e.target as nat),
        decimal(e.weight as nat),
        seq![48u8],
        seq![48u8],
        show_option(e.edge_id_a),
        show_option(e.edge_id_b),
    ]
}

/// Both coordinate texts are words.
pub open spec fn coord_words(c: (Seq<u8>, Seq<u8>)) -> bool {
    is_word(c.0) && is_word(c.1)
}

/// The texts of the coordinates.
pub open spec fn coord_views(c: Seq<(Vec<u8>, Vec<u8>)>) -> Seq<(Seq<u8>, Seq<u8>)> {
    c.map_values(|p: (Vec<u8>, Vec<u8>)| (p.0@, p.1@))
}

/// The lines that `export_text` writes: ten comment lines, the number of
/// nodes, the number of forward edges, a line per node, and a line per
/// forward edge, by node and then in stored order.
pub open spec fn export_lines(graph: Graph, coords: Seq<(Seq<u8>, Seq<u8>)>) -> Seq<Seq<u8>> {
    let n = graph.nodes@.len();
    let pairs = forward_pairs(graph.adj(), graph.adj().len() as int);
    Seq::new(10, |j: int| seq![35u8, 32u8]) + seq![decimal(n), decimal(graph.spec_num_edges())]
        + Seq::new(n, |i: int| spaced(node_words(i, graph.nodes@[i], coords[i].0, coords[i].1)))
        + Seq::new(pairs.len(), |k: int| spaced(edge_words(pairs[k].0, pairs[k].1)))
}

proof fn lemma_export_lines_at(graph: Graph, coords: Seq<(Seq<u8>, Seq<u8>)>)
    ensures
        ({
            let ls = export_lines(graph, coords);
            let n = graph.nodes@.len() as int;
            let pairs = forward_pairs(graph.adj(), graph.adj().len() as int);
            &&& ls.len() == 12 + n + pairs.len()
            &&& forall|j: int| 0 <= j < 10 ==> #[trigger] ls[j] == seq![35u8, 32u8]
            &&& ls[10] == decimal(n as nat)
            &&& ls[11] == decimal(graph.spec_num_edges())
            &&& forall|j: int|
                12 <= j < 12 + n ==> #[trigger] ls[j] == spaced(
                    node_words(j - 12, graph.nodes@[j - 12], coords[j - 12].0, coords[j - 12].1),
                )
            &&& forall|j: int|
                12 + n <= j < 12 + n + pairs.len() ==> #[trigger] ls[j] == spaced(
                    edge_words(pairs[j - 12 - n].0, pairs[j - 12 - n].1),
                )
        }),
{
}

proof fn lemma_joined_take(ls: Seq<Seq<u8>>, k: int)
    requires
        0 <= k < ls.len(),
    ensures
        joined_lines(ls.take(k + 1)) == joined_lines(ls.take(k)) + ls[k].push(10u8),
{
    assert(ls.take(k + 1).drop_last() =~= ls.take(k));
}

/// Appends `bytes` to `out`.
fn push_bytes(out: &mut Vec<u8>, bytes: &Vec<u8>)
    ensures
        final(out)@ == old(out)@ + bytes@,
{
    let mut i: usize = 0;
    while i < bytes.len()
        invariant
            i <= bytes@.len(),
            out@ == old(out)@ + bytes@.take(i as int),
        decreases bytes@.len() - i,
    {
        out.push(bytes[i]);
        i = i + 1;
        proof {
            assert(out@ =~= old(out)@ + bytes@.take(i as int));
        }
    }
    proof {
        assert(bytes@.take(bytes@.len() as int) =~= bytes@);
    }
}

/// The decimal digits of `n`.
fn render_unsigned(n: u64) -> (r: Vec<u8>)
    ensures
        r@ == decimal(n as nat),
{
    let mut r: Vec<u8> = Vec::new();
    push_unsigned(&mut r, n);
    proof {
        assert(Seq::<u8>::empty() + decimal(n as nat) =~= decimal(n as nat));
    }
    r
}

/// An optional shortcut id as a field.
fn render_option(x: Option<u64>) -> (r: Vec<u8>)
    ensures
        r@ == show_option(x),
{
    let mut r: Vec<u8> = Vec::new();
    match x {
        Some(v) => {
            push_unsigned(&mut r, v);
        },
        None => {
            r.push(78u8);
            r.push(111u8);
            r.push(110u8);
            r.push(101u8);
        },
    }
    proof {
        assert(r@ =~= show_option(x));
    }
    r
}

proof fn lemma_spaced_take(ws: Seq<Seq<u8>>, j: int)
    requires
        1 <= j < ws.len(),
    ensures
        spaced(ws.take(j + 1)) == spaced(ws.take(j)) + seq![32u8] + ws[j],
{
    assert(ws.take(j + 1).drop_last() =~= ws.take(j));
}

/// Appends the words of `words` to `out`, with one space between each two,
/// and ends the line.
fn push_line(out: &mut Vec<u8>, words: &Vec<Vec<u8>>)
    requires
        words@.len() > 0,
    ensures
        final(out)@ == old(out)@ + spaced(views(words@)).push(10u8),
{
    let ghost ws = views(words@);
    push_bytes(out, &words[0]);
    proof {
        assert(ws.take(1) =~= seq![ws[0]]);
        assert(ws[0] == words@[0]@);
    }
    let mut j: usize = 1;
    while j < words.len()
        invariant
            ws == views(words@),
            1 <= j <= words@.len(),
            out@ == old(out)@ + spaced(ws.take(j as int)),
        decreases words@.len() - j,
    {
        let ghost before = out@;
        out.push(32u8);
        push_bytes(out, &words[j]);
        proof {
            lemma_spaced_take(ws, j as int);
            assert(ws[j as int] == words@[j as int]@);
            assert(out@ =~= old(out)@ + spaced(ws.take(j as int + 1)));
        }
        j = j + 1;
    }
    out.push(10u8);
    proof {
        assert(ws.take(words@.len() as int) =~= ws);
        assert(out@ =~= old(out)@ + spaced(ws).push(10u8));
    }
}

/// Writes `graph` as the text of a graph file: ten comment lines, the
/// number of nodes, the number of edges, a line per node with the texts of
/// its coordinates from `coords`, and a line per forward edge.
pub fn export_text(graph: &Graph, coords: &Vec<(Vec<u8>, Vec<u8>)>) -> (r: Vec<u8>)
    requires
        graph.well_formed(),
        coords@.len() == graph.nodes@.len(),
    ensures
        r@ == joined_lines(export_lines(*graph, coord_views(coords@))),
{
    let ghost cv = coord_views(coords@);
    let ghost ls = export_lines(*graph, cv);
    let pairs = graph.forward_edge_list();
    let n = graph.nodes.len();
    let m = pairs.len();
    proof {
        lemma_export_lines_at(*graph, cv);
    }
    let mut out: Vec<u8> = Vec::new();
    let mut k: usize = 0;
    while k < 10
        invariant
            k <= 10,
            ls == export_lines(*graph, cv),
            forall|j: int| 0 <= j < 10 ==> #[trigger] ls[j] == seq![35u8, 32u8],
            ls.len() >= 12,
            out@ == joined_lines(ls.take(k as int)),
        decreases 10 - k,
    {
        let ghost before = out@;
        out.push(35u8);
        out.push(32u8);
        out.push(10u8);
        proof {
            lemma_joined_take(ls, k as int);
            assert(out@ =~= before + ls[k as int].push(10u8));
        }
        k = k + 1;
    }
    let nl = render_unsigned(n as u64);
    push_bytes(&mut out, &nl);
    out.push(10u8);
    proof {
        lemma_joined_take(ls, 10);
        assert(joined_lines(ls.take(11)) =~= joined_lines(ls.take(10)) + nl@.push(10u8));
        assert(out@ =~= joined_lines(ls.take(11)));
    }
    let ml = render_unsigned(m as u64);
    push_bytes(&mut out, &ml);
    out.push(10u8);
    proof {
        lemma_joined_take(ls, 11);
        assert(out@ =~= joined_lines(ls.take(12)));
    }
    let mut i: usize = 0;
    while i < n
        invariant
            i <= n,
            n == graph.nodes@.len(),
            coords@.len() == n,
            cv == coord_views(coords@),
            ls == export_lines(*graph, cv),
            ls.len() == 12 + n + m,
            forall|j: int|
                12 <= j < 12 + n ==> #[trigger] ls[j] == spaced(
                    node_words(j - 12, graph.nodes@[j - 12], cv[j - 12].0, cv[j - 12].1),
                ),
            out@ == joined_lines(ls.take(12 + i as int)),
        decreases n - i,
    {
        let node = &graph.nodes[i];
        let mut words: Vec<Vec<u8>> = Vec::new();
        words.push(render_unsigned(i as u64));
        words.push(render_unsigned(node.osm_id));
        words.push(coords[i].0.clone());
        words.push(coords[i].1.clone());
        words.push(vec![48u8]);
        words.push(render_unsigned(node.level as u64));
        proof {
            assert(cv[i as int] == (coords@[i as int].0@, coords@[i as int].1@));
            let w = views(words@);
            assert(w[0] == decimal(i as nat));
            assert(w[1] == decimal(graph.nodes@[i as int].osm_id as nat));
            assert(w[2] == cv[i as int].0);
            assert(w[3] == cv[i as int].1);
            assert(w[4] =~= seq![48u8]);
            assert(w[5] == decimal(graph.nodes@[i as int].level as nat));
            assert(w =~= node_words(i as int, graph.nodes@[i as int], cv[i as int].0, cv[i as int].1));
        }
        push_line(&mut out, &words);
        proof {
            lemma_joined_take(ls, 12 + i as int);
            assert(out@ =~= joined_lines(ls.take(12 + i as int + 1)));
        }
        i = i + 1;
    }
    let mut k: usize = 0;
    while k < m
        invariant
            k <= m,
            m == pairs@.len(),
            pairs@ == forward_pairs(graph.adj(), graph.adj().len() as int),
            ls.len() == 12 + n + m,
            forall|j: int|
                12 + n <= j < 12 + n + m ==> #[trigger] ls[j] == spaced(
                    edge_words(pairs@[j - 12 - n].0, pairs@[j - 12 - n].1),
                ),
            out@ == joined_lines(ls.take(12 + n + k as int)),
        decreases m - k,
    {
        let (u, e) = pairs[k];
        let mut words: Vec<Vec<u8>> = Vec::new();
        words.push(render_unsigned(u as u64));
        words.push(render_unsigned(e.target));
        words.push(render_unsigned(e.weight));
        words.push(vec![48u8]);
        words.push(vec![48u8]);
        words.push(render_option(e.edge_id_a));
        words.push(render_option(e.edge_id_b));
        proof {
            let w = views(words@);
            assert(w[3] =~= seq![48u8]);
            assert(w[4] =~= seq![48u8]);
            assert(w =~= edge_words(u, e));
        }
        push_line(&mut out, &words);
        proof {
            lemma_joined_take(ls, 12 + n + k as int);
            assert(out@ =~= joined_lines(ls.take(12 + n + k as int + 1)));
        }
        k = k + 1;
    }
    proof {
        assert(ls.take(ls.len() as int) =~= ls);
    }
    out
}

proof fn lemma_spaced_bytes(ws: Seq<Seq<u8>>)
    requires
        ws.len() > 0,
        forall|i: int| 0 <= i < ws.len() ==> is_word(#[trigger] ws[i]),
    ensures
        spaced(ws).len() > 0,
        spaced(ws)[0] == ws[0][0],
        !is_space(spaced(ws).last()),
        forall|j: int| 0 <= j < spaced(ws).len() ==> #[trigger] spaced(ws)[j] == 32u8 || !is_space(spaced(ws)[j]),
    decreases ws.len(),
{
    assert(is_word(ws[0]));
    assert(is_word(ws[ws.len() - 1]));
    if ws.len() > 1 {
        let prev = ws.drop_last();
        assert forall|i: int| 0 <= i < prev.len() implies is_word(#[trigger] prev[i]) by {
            assert(prev[i] == ws[i]);
        }
        lemma_spaced_bytes(prev);
        let a = spaced(prev);
        let b = ws.last();
        let t = a + seq![32u8] + b;
        assert(spaced(ws) == t);
        assert(t[0] == a[0]);
        assert(t.last() == b[b.len() - 1]);
        assert forall|j: int| 0 <= j < t.len() implies #[trigger] t[j] == 32u8 || !is_space(t[j]) by {
            if j < a.len() {
                assert(t[j] == a[j]);
            } else if j > a.len() {
                assert(t[j] == b[j - a.len() - 1]);
            }
        }
    }
}

proof fn lemma_spaced_plain(ws: Seq<Seq<u8>>)
    requires
        ws.len() > 0,
        forall|i: int| 0 <= i < ws.len() ==> is_word(#[trigger] ws[i]),
    ensures
        is_plain_line(spaced(ws)),
        is_content(spaced(ws)) == (ws[0][0] != 35u8),
{
    lemma_spaced_bytes(ws);
    let l = spaced(ws);
    assert forall|j: int| 0 <= j < l.len() implies #[trigger] l[j] != 10u8 by {
        assert(l[j] == 32u8 || !is_space(l[j]));
    }
}

proof fn lemma_show_option(x: Option<u64>)
    ensures
        is_word(show_option(x)),
        as_u64(parse_unsigned(show_option(x), u64::MAX as int)) == x,
{
    let s = show_option(x);
    match x {
        Some(v) => {
            lemma_decimal(v as nat);
        },
        None => {
            assert(s[0] == 78u8);
            assert(digits_part(s) == s);
            assert(!is_digit(s[0]));
        },
    }
}

/// The pairs of `forward_pairs` name a node before `k` and an edge whose
/// target is below `n` when every stored edge's is.
proof fn lemma_forward_pairs_bounds(adj: Seq<Seq<Edge>>, k: int, n: int)
    requires
        0 <= k <= adj.len(),
        adj.len() <= usize::MAX,
        forall|u: int, i: int| 0 <= u < adj.len() && 0 <= i < adj[u].len() ==> (#[trigger] adj[u][i]).target < n,
    ensures
        forall|j: int|
            0 <= j < forward_pairs(adj, k).len() ==> (#[trigger] forward_pairs(adj, k)[j]).0 < k
                && forward_pairs(adj, k)[j].1.target < n,
    decreases k,
{
    if k > 0 {
        lemma_forward_pairs_bounds(adj, k - 1, n);
        lemma_forward_from_bounds(k - 1, adj[k - 1], n);
        let a = forward_pairs(adj, k - 1);
        let b = forward_from(k - 1, adj[k - 1]);
        assert forall|j: int| 0 <= j < (a + b).len() implies (#[trigger] (a + b)[j]).0 < k && (a + b)[j].1.target < n by {
            if j < a.len() {
                assert((a + b)[j] == a[j]);
            } else {
                assert((a + b)[j] == b[j - a.len()]);
            }
        }
    }
}

proof fn lemma_forward_from_bounds(u: int, list: Seq<Edge>, n: int)
    requires
        0 <= u <= usize::MAX,
        forall|i: int| 0 <= i < list.len() ==> (#[trigger] list[i]).target < n,
    ensures
        forall|j: int|
            0 <= j < forward_from(u, list).len() ==> (#[trigger] forward_from(u, list)[j]).0 == u
                && forward_from(u, list)[j].1.target < n,
    decreases list.len(),
{
    if list.len() > 0 {
        let l0 = list.drop_last();
        assert forall|i: int| 0 <= i < l0.len() implies (#[trigger] l0[i]).target < n by {
            assert(l0[i] == list[i]);
        }
        lemma_forward_from_bounds(u, l0, n);
        assert(list.last() == list[list.len() - 1]);
    }
}

/// The edge line that reading back an exported forward edge gives: its
/// source, target, weight and shortcut ids.
pub open spec fn read_back_edge(p: (usize, Edge)) -> EdgeRecord {
    EdgeRecord {
        source: p.0,
        target: p.1.target as usize,
        weight: p.1.weight,
        edge_id_a: p.1.edge_id_a,
        edge_id_b: p.1.edge_id_b,
    }
}

/// The node line that reading back an exported node gives: its OSM id, the
/// texts of its two coordinates, and its level.
pub open spec fn read_back_node(node: Node, lat: Seq<u8>, lon: Seq<u8>) -> (u64, Seq<u8>, Seq<u8>, u16) {
    (node.osm_id, lat, lon, node.level)
}

proof fn lemma_node_text(i: int, node: Node, lat: Seq<u8>, lon: Seq<u8>)
    requires
        0 <= i <= u64::MAX,
        is_word(lat),
        is_word(lon),
    ensures
        ({
            let l = spaced(node_words(i, node, lat, lon));
            &&& is_plain_line(l)
            &&& is_content(l)
            &&& node_line(tokens(l)) == Some(read_back_node(node, lat, lon))
        }),
{
    let ws = node_words(i, node, lat, lon);
    lemma_decimal(i as nat);
    lemma_decimal(node.osm_id as nat);
    lemma_decimal(node.level as nat);
    assert(is_word(seq![48u8]));
    assert forall|k: int| 0 <= k < ws.len() implies is_word(#[trigger] ws[k]) by {}
    lemma_tokens_spaced(ws);
    lemma_spaced_plain(ws);
    assert(is_digit(ws[0][0]));
    assert(parse_unsigned(ws[1], u64::MAX as int) == Some(node.osm_id as int));
    assert(parse_unsigned(ws[5], u16::MAX as int) == Some(node.level as int));
}

proof fn lemma_edge_text(p: (usize, Edge))
    requires
        p.1.target <= usize::MAX,
    ensures
        ({
            let l = spaced(edge_words(p.0, p.1));
            &&& is_plain_line(l)
            &&& is_content(l)
            &&& edge_line(tokens(l)) == Some(read_back_edge(p))
        }),
{
    let ws = edge_words(p.0, p.1);
    lemma_decimal(p.0 as nat);
    lemma_decimal(p.1.target as nat);
    lemma_decimal(p.1.weight as nat);
    lemma_show_option(p.1.edge_id_a);
    lemma_show_option(p.1.edge_id_b);
    assert(is_word(seq![48u8]));
    assert forall|j: int| 0 <= j < ws.len() implies is_word(#[trigger] ws[j]) by {}
    lemma_tokens_spaced(ws);
    lemma_spaced_plain(ws);
    assert(is_digit(ws[0][0]));
    assert(parse_unsigned(ws[0], usize::MAX as int) == Some(p.0 as int));
    assert(parse_unsigned(ws[1], usize::MAX as int) == Some(p.1.target as int));
    assert(parse_unsigned(ws[2], u64::MAX as int) == Some(p.1.weight as int));
    assert(as_u64(parse_unsigned(ws[5], u64::MAX as int)) == p.1.edge_id_a);
    assert(as_u64(parse_unsigned(ws[6], u64::MAX as int)) == p.1.edge_id_b);
}

proof fn lemma_number_line(x: nat)
    ensures
        is_plain_line(decimal(x)),
        is_content(decimal(x)),
{
    lemma_decimal(x);
    let d = decimal(x);
    assert forall|k: int| 0 <= k < d.len() implies #[trigger] d[k] != 10u8 by {
        assert(is_digit(d[k]));
    }
    assert(is_digit(d[d.len() - 1]));
    assert(is_digit(d[0]));
}

/// What each line of an exported graph is to the reader.
proof fn lemma_export_line_facts(graph: Graph, coords: Seq<(Seq<u8>, Seq<u8>)>)
    requires
        graph.well_formed(),
        graph.nodes@.len() <= usize::MAX,
        coords.len() == graph.nodes@.len(),
        forall|i: int| 0 <= i < coords.len() ==> #[trigger] coord_words(coords[i]),
    ensures
        ({
            let ls = export_lines(graph, coords);
            let n = graph.nodes@.len() as int;
            let pairs = forward_pairs(graph.adj(), graph.adj().len() as int);
            &&& forall|j: int| 0 <= j < ls.len() ==> is_plain_line(#[trigger] ls[j])
            &&& forall|j: int| 0 <= j < ls.len() ==> (is_content(#[trigger] ls[j]) <==> j >= 10)
            &&& forall|j: int|
                12 <= j < 12 + n ==> node_line(tokens(#[trigger] ls[j])) == Some(
                    read_back_node(graph.nodes@[j - 12], coords[j - 12].0, coords[j - 12].1),
                )
            &&& forall|j: int|
                12 + n <= j < ls.len() ==> edge_line(tokens(#[trigger] ls[j])) == Some(
                    read_back_edge(pairs[j - 12 - n]),
                )
        }),
{
    let n = graph.nodes@.len() as int;
    let adj = graph.adj();
    let pairs = forward_pairs(adj, adj.len() as int);
    let ls = export_lines(graph, coords);
    lemma_export_lines_at(graph, coords);
    assert forall|u: int, i: int| 0 <= u < adj.len() && 0 <= i < adj[u].len() implies (#[trigger] adj[u][i]).target < n by {
        assert(adj[u] == graph.edges@[u]@);
    }
    lemma_forward_pairs_bounds(adj, adj.len() as int, n);
    lemma_number_line(n as nat);
    lemma_number_line(graph.spec_num_edges());
    assert forall|j: int| 0 <= j < ls.len() implies is_plain_line(#[trigger] ls[j]) && (is_content(ls[j]) <==> j >= 10)
        && (12 <= j < 12 + n ==> node_line(tokens(ls[j])) == Some(
            read_back_node(graph.nodes@[j - 12], coords[j - 12].0, coords[j - 12].1),
        )) && (12 + n <= j ==> edge_line(tokens(ls[j])) == Some(read_back_edge(pairs[j - 12 - n]))) by {
        if j < 10 {
            assert(ls[j] == seq![35u8, 32u8]);
        } else if 12 <= j < 12 + n {
            assert(coord_words(coords[j - 12]));
            lemma_node_text(j - 12, graph.nodes@[j - 12], coords[j - 12].0, coords[j - 12].1);
        } else if 12 + n <= j {
            assert(pairs[j - 12 - n].1.target < n);
            lemma_edge_text(pairs[j - 12 - n]);
        }
    }
}

/// The lines of an exported graph that the reader takes: all but the ten
/// comment lines.
proof fn lemma_export_content(graph: Graph, coords: Seq<(Seq<u8>, Seq<u8>)>)
    requires
        graph.well_formed(),
        graph.nodes@.len() <= usize::MAX,
        coords.len() == graph.nodes@.len(),
        forall|i: int| 0 <= i < coords.len() ==> #[trigger] coord_words(coords[i]),
    ensures
        content_lines(joined_lines(export_lines(graph, coords))) == export_lines(graph, coords).skip(10),
{
    let ls = export_lines(graph, coords);
    lemma_export_lines_at(graph, coords);
    lemma_export_line_facts(graph, coords);
    let head = ls.take(10);
    let rest = ls.skip(10);
    assert(ls =~= head + rest);
    lemma_lines_joined(ls);
    assert forall|j: int| 0 <= j < head.len() implies is_content(#[trigger] head[j]) == false by {
        assert(head[j] == ls[j]);
    }
    lemma_filter_all(head, false);
    assert forall|j: int| 0 <= j < rest.len() implies is_content(#[trigger] rest[j]) == true by {
        assert(rest[j] == ls[10 + j]);
    }
    lemma_filter_all(rest, true);
    Seq::filter_distributes_over_add(head, rest, |l: Seq<u8>| is_content(l));
    assert(Seq::<Seq<u8>>::empty() + rest =~= rest);
}

/// An exported graph reads back: `parse_fmi` takes the text that
/// `export_text` writes and finds, in order, every node with its OSM id, its
/// coordinate texts and its level, and every forward edge with its source,
/// target, weight and shortcut ids.
#[verifier::spinoff_prover]
pub proof fn lemma_export_reads_back(graph: Graph, coords: Seq<(Seq<u8>, Seq<u8>)>)
    requires
        graph.well_formed(),
        graph.nodes@.len() <= usize::MAX,
        graph.spec_num_edges() <= usize::MAX,
        coords.len() == graph.nodes@.len(),
        forall|i: int| 0 <= i < coords.len() ==> #[trigger] coord_words(coords[i]),
    ensures
        spec_parse_fmi(joined_lines(export_lines(graph, coords))) == Some(
            (
                Seq::new(
                    graph.nodes@.len(),
                    |i: int| read_back_node(graph.nodes@[i], coords[i].0, coords[i].1),
                ),
                forward_pairs(graph.adj(), graph.adj().len() as int).map_values(
                    |p: (usize, Edge)| read_back_edge(p),
                ),
            ),
        ),
{
    let n = graph.nodes@.len() as int;
    let adj = graph.adj();
    let pairs = forward_pairs(adj, adj.len() as int);
    let m = pairs.len() as int;
    let ls = export_lines(graph, coords);
    lemma_export_lines_at(graph, coords);
    lemma_export_line_facts(graph, coords);
    lemma_forward_pairs_len(adj, adj.len() as int);
    lemma_decimal(n as nat);
    lemma_decimal(m as nat);
    lemma_export_content(graph, coords);
    let text = joined_lines(ls);
    let cl = content_lines(text);
    assert(cl == ls.skip(10));
    assert(cl[0] == ls[10]);
    assert(cl[1] == ls[11]);
    assert(parse_unsigned(cl[0], usize::MAX as int) == Some(n));
    assert(parse_unsigned(cl[1], usize::MAX as int) == Some(m));
    assert forall|i: int| 0 <= i < n implies (#[trigger] node_line(tokens(cl[2 + i]))) == Some(
        read_back_node(graph.nodes@[i], coords[i].0, coords[i].1),
    ) by {
        assert(cl[2 + i] == ls[12 + i]);
    }
    assert forall|k: int| 0 <= k < m implies (#[trigger] edge_line(tokens(cl[2 + n + k]))) == Some(
        read_back_edge(pairs[k]),
    ) by {
        assert(cl[2 + n + k] == ls[12 + n + k]);
    }
    let nodes_read = Seq::new(n as nat, |i: int| node_line(tokens(cl[2 + i])).unwrap());
    let edges_read = Seq::new(m as nat, |k: int| edge_line(tokens(cl[2 + n + k])).unwrap());
    assert(nodes_read =~= Seq::new(graph.nodes@.len(), |i: int| read_back_node(graph.nodes@[i], coords[i].0, coords[i].1)));
    assert(edges_read =~= pairs.map_values(|p: (usize, Edge)| read_back_edge(p)));
}

/// The forward edges of `list`, in order, as target, weight and shortcut ids.
pub open spec fn outgoing_view(list: Seq<Edge>) -> Seq<(int, int, Option<u64>, Option<u64>)>
    decreases list.len(),
{
    if list.len() == 0 {
        seq![]
    } else {
        outgoing_view(list.drop_last()) + if list.last().dir {
            seq![(list.last().target as int, list.last().weight as int, list.last().edge_id_a, list.last().edge_id_b)]
        } else {
            seq![]
        }
    }
}

/// The edge lines of `es` whose source is `u`, in order, as target, weight
/// and shortcut ids.
pub open spec fn lines_from(es: Seq<EdgeRecord>, u: int) -> Seq<(int, int, Option<u64>, Option<u64>)>
    decreases es.len(),
{
    if es.len() == 0 {
        seq![]
    } else {
        lines_from(es.drop_last(), u) + if es.last().source == u {
            seq![(es.last().target as int, es.last().weight as int, es.last().edge_id_a, es.last().edge_id_b)]
        } else {
            seq![]
        }
    }
}

proof fn lemma_outgoing_push(list: Seq<Edge>, e: Edge)
    ensures
        outgoing_view(list.push(e)) == outgoing_view(list) + if e.dir {
            seq![(e.target as int, e.weight as int, e.edge_id_a, e.edge_id_b)]
        } else {
            seq![]
        },
{
    assert(list.push(e).drop_last() =~= list);
}

/// The lists built from edge lines hold at `u`, as forward edges, exactly
/// the lines from `u`, in order.
proof fn lemma_build_outgoing(n: nat, es: Seq<EdgeRecord>, created: i32, u: int)
    requires
        0 <= u < n,
        forall|i: int| 0 <= i < es.len() ==> (#[trigger] es[i]).source < n && es[i].target < n,
    ensures
        build_adj(n, es, created).0.len() == n,
        outgoing_view(build_adj(n, es, created).0[u]) == lines_from(es, u),
    decreases es.len(),
{
    if es.len() > 0 {
        let e0 = es.drop_last();
        assert forall|i: int| 0 <= i < e0.len() implies (#[trigger] e0[i]).source < n && e0[i].target < n by {
            assert(e0[i] == es[i]);
        }
        lemma_build_outgoing(n, e0, created, u);
        let prev = build_adj(n, e0, created);
        let r = es.last();
        assert(r == es[es.len() - 1]);
        let id = crate::graph::wrapping_i32_succ(prev.1);
        let e = Edge { target: r.target as u64, weight: r.weight, edge_id_a: r.edge_id_a, edge_id_b: r.edge_id_b, id, dir: true };
        let a1 = prev.0.update(r.source as int, prev.0[r.source as int].push(e));
        let rev = e.reverse_spec(r.source as u64);
        let a2 = a1.update(r.target as int, a1[r.target as int].push(rev));
        assert(build_adj(n, es, created).0 == a2);
        if u == r.source {
            lemma_outgoing_push(prev.0[u], e);
        }
        if u == r.target {
            lemma_outgoing_push(a1[u], rev);
        }
    } else {
        assert(build_adj(n, es, created).0[u] =~= Seq::<Edge>::empty());
    }
}

proof fn lemma_lines_from_concat(a: Seq<EdgeRecord>, b: Seq<EdgeRecord>, u: int)
    ensures
        lines_from(a + b, u) == lines_from(a, u) + lines_from(b, u),
    decreases b.len(),
{
    if b.len() == 0 {
        assert(a + b =~= a);
        assert(lines_from(a, u) + lines_from(b, u) =~= lines_from(a, u));
    } else {
        lemma_lines_from_concat(a, b.drop_last(), u);
        assert((a + b).drop_last() =~= a + b.drop_last());
        assert((a + b).last() == b.last());
    }
}

/// Read back, the forward edges of `list` at `x` are lines from `u` only when `x` is `u`.
proof fn lemma_forward_from_lines(x: int, list: Seq<Edge>, u: int)
    requires
        0 <= x <= usize::MAX,
        0 <= u <= usize::MAX,
        forall|i: int| 0 <= i < list.len() ==> (#[trigger] list[i]).target <= usize::MAX,
    ensures
        lines_from(forward_from(x, list).map_values(|p: (usize, Edge)| read_back_edge(p)), u) == if x == u {
            outgoing_view(list)
        } else {
            seq![]
        },
    decreases list.len(),
{
    let f = |p: (usize, Edge)| read_back_edge(p);
    if list.len() == 0 {
        assert(forward_from(x, list).map_values(f) =~= Seq::<EdgeRecord>::empty());
    } else {
        let l0 = list.drop_last();
        assert forall|i: int| 0 <= i < l0.len() implies (#[trigger] l0[i]).target <= usize::MAX by {
            assert(l0[i] == list[i]);
        }
        lemma_forward_from_lines(x, l0, u);
        let last = list.last();
        assert(last == list[list.len() - 1]);
        let tail = if last.dir { seq![(x as usize, last)] } else { Seq::<(usize, Edge)>::empty() };
        assert(forward_from(x, list) == forward_from(x, l0) + tail);
        assert(forward_from(x, list).map_values(f) =~= forward_from(x, l0).map_values(f) + tail.map_values(f));
        lemma_lines_from_concat(forward_from(x, l0).map_values(f), tail.map_values(f), u);
        let tm = tail.map_values(f);
        if last.dir {
            assert(tm =~= seq![read_back_edge((x as usize, last))]);
            assert(tm.drop_last() =~= Seq::<EdgeRecord>::empty());
            assert(lines_from(tm.drop_last(), u) =~= Seq::<(int, int, Option<u64>, Option<u64>)>::empty());
        } else {
            assert(tm =~= Seq::<EdgeRecord>::empty());
        }
    }
}

/// Read back, the forward edges of the first `k` nodes are lines from `u`
/// exactly when `u` is one of those nodes: its forward edges, in order.
proof fn lemma_pairs_lines(adj: Seq<Seq<Edge>>, k: int, u: int)
    requires
        0 <= k <= adj.len(),
        adj.len() <= usize::MAX,
        0 <= u < adj.len(),
        forall|x: int, i: int| 0 <= x < adj.len() && 0 <= i < adj[x].len() ==> (#[trigger] adj[x][i]).target < adj.len(),
    ensures
        lines_from(forward_pairs(adj, k).map_values(|p: (usize, Edge)| read_back_edge(p)), u) == if u < k {
            outgoing_view(adj[u])
        } else {
            seq![]
        },
    decreases k,
{
    let f = |p: (usize, Edge)| read_back_edge(p);
    if k <= 0 {
        assert(forward_pairs(adj, k).map_values(f) =~= Seq::<EdgeRecord>::empty());
    } else {
        lemma_pairs_lines(adj, k - 1, u);
        let a = forward_pairs(adj, k - 1);
        let b = forward_from(k - 1, adj[k - 1]);
        assert(forward_pairs(adj, k).map_values(f) =~= a.map_values(f) + b.map_values(f));
        lemma_lines_from_concat(a.map_values(f), b.map_values(f), u);
        assert forall|i: int| 0 <= i < adj[k - 1].len() implies (#[trigger] adj[k - 1][i]).target <= usize::MAX by {}
        lemma_forward_from_lines(k - 1, adj[k - 1], u);
        assert(lines_from(a.map_values(f), u) + Seq::<(int, int, Option<u64>, Option<u64>)>::empty() =~= lines_from(a.map_values(f), u));
        assert(Seq::<(int, int, Option<u64>, Option<u64>)>::empty() + outgoing_view(adj[u]) =~= outgoing_view(adj[u]));
    }
}

proof fn lemma_forward_count_view(list: Seq<Edge>)
    ensures
        outgoing_view(list).len() == crate::graph::forward_count(list),
    decreases list.len(),
{
    reveal_with_fuel(Seq::<_>::filter, 1);
    if list.len() > 0 {
        lemma_forward_count_view(list.drop_last());
    }
}

proof fn lemma_total_views(a: Seq<Seq<Edge>>, b: Seq<Seq<Edge>>, k: int)
    requires
        0 <= k <= a.len(),
        a.len() == b.len(),
        forall|x: int| 0 <= x < a.len() ==> #[trigger] outgoing_view(a[x]) == outgoing_view(b[x]),
    ensures
        forward_total(a, k) == forward_total(b, k),
    decreases k,
{
    if k > 0 {
        lemma_total_views(a, b, k - 1);
        lemma_forward_count_view(a[k - 1]);
        lemma_forward_count_view(b[k - 1]);
        assert(outgoing_view(a[k - 1]) == outgoing_view(b[k - 1]));
    }
}

/// A graph written out and read back is the same graph, up to the order of
/// backward edges: the text parses; it gives as many nodes, each with its
/// OSM id and level; and the lists that `Graph::from_records` builds from
/// its edge lines hold at every node the same forward edges, in order, with
/// the same targets, weights and shortcut ids, so the edge count is the
/// same too.
pub proof fn lemma_export_round_trip(graph: Graph, coords: Seq<(Seq<u8>, Seq<u8>)>, created: i32)
    requires
        graph.well_formed(),
        graph.nodes@.len() <= usize::MAX,
        graph.spec_num_edges() <= usize::MAX,
        coords.len() == graph.nodes@.len(),
        forall|i: int| 0 <= i < coords.len() ==> #[trigger] coord_words(coords[i]),
    ensures
        spec_parse_fmi(joined_lines(export_lines(graph, coords))) is Some,
        ({
            let (ns, es) = spec_parse_fmi(joined_lines(export_lines(graph, coords))).unwrap();
            let n = graph.nodes@.len();
            let h = build_adj(ns.len(), es, created).0;
            &&& ns.len() == n
            &&& forall|i: int| 0 <= i < n ==> (#[trigger] ns[i]).0 == graph.nodes@[i].osm_id && ns[i].3 == graph.nodes@[i].level
            &&& forall|i: int| 0 <= i < es.len() ==> (#[trigger] es[i]).source < n && es[i].target < n
            &&& h.len() == n
            &&& forall|u: int| 0 <= u < n ==> #[trigger] outgoing_view(h[u]) == outgoing_view(graph.adj()[u])
            &&& forward_total(h, n as int) == graph.spec_num_edges()
        }),
{
    lemma_export_reads_back(graph, coords);
    let adj = graph.adj();
    let n = graph.nodes@.len();
    let f = |p: (usize, Edge)| read_back_edge(p);
    let pairs = forward_pairs(adj, n as int);
    let es = pairs.map_values(f);
    let ns = Seq::new(n, |i: int| read_back_node(graph.nodes@[i], coords[i].0, coords[i].1));
    assert(spec_parse_fmi(joined_lines(export_lines(graph, coords))).unwrap() == (ns, es));
    assert forall|x: int, i: int| 0 <= x < adj.len() && 0 <= i < adj[x].len() implies (#[trigger] adj[x][i]).target < adj.len() by {
        assert(adj[x] == graph.edges@[x]@);
        assert(graph.edges@[x]@[i] == adj[x][i]);
    }
    lemma_forward_pairs_bounds(adj, n as int, n as int);
    assert forall|i: int| 0 <= i < es.len() implies (#[trigger] es[i]).source < n && es[i].target < n by {
        assert(es[i] == read_back_edge(pairs[i]));
        assert(pairs[i].0 < n && pairs[i].1.target < n);
    }
    let h = build_adj(n, es, created).0;
    assert forall|u: int| 0 <= u < n implies #[trigger] outgoing_view(h[u]) == outgoing_view(adj[u]) by {
        lemma_build_outgoing(n, es, created, u);
        lemma_pairs_lines(adj, n as int, u);
    }
    crate::fmi::lemma_build_adj(n, es, created);
    lemma_total_views(h, adj, n as int);
}

/// The exported text numbers the nodes by their index: the line of the
/// `k`-th node, after the two count lines, starts with `k` written in
/// decimal, however many nodes there are, followed by the node's OSM id.
pub proof fn lemma_export_node_ids(graph: Graph, coords: Seq<(Seq<u8>, Seq<u8>)>)
    requires
        graph.well_formed(),
        graph.nodes@.len() <= usize::MAX,
        graph.spec_num_edges() <= usize::MAX,
        coords.len() == graph.nodes@.len(),
        forall|i: int| 0 <= i < coords.len() ==> #[trigger] coord_words(coords[i]),
    ensures
        forall|k: int|
            0 <= k < graph.nodes@.len() ==> {
                let toks = #[trigger] tokens(content_lines(joined_lines(export_lines(graph, coords)))[2 + k]);
                &&& toks.len() == 6
                &&& number_text(toks[0], k)
                &&& number_text(toks[1], graph.nodes@[k].osm_id as int)
            },
{
    let ls = export_lines(graph, coords);
    lemma_export_lines_at(graph, coords);
    lemma_export_content(graph, coords);
    let cl = content_lines(joined_lines(ls));
    assert forall|k: int| 0 <= k < graph.nodes@.len() implies {
        let toks = #[trigger] tokens(content_lines(joined_lines(export_lines(graph, coords)))[2 + k]);
        &&& toks.len() == 6
        &&& number_text(toks[0], k)
        &&& number_text(toks[1], graph.nodes@[k].osm_id as int)
    } by {
        assert(cl[2 + k] == ls[12 + k]);
        let ws = node_words(k, graph.nodes@[k], coords[k].0, coords[k].1);
        assert(ls[12 + k] == spaced(ws));
        lemma_decimal(k as nat);
        lemma_decimal(graph.nodes@[k].osm_id as nat);
        lemma_decimal(graph.nodes@[k].level as nat);
        assert(coord_words(coords[k]));
        assert(is_word(seq![48u8]));
        assert forall|i: int| 0 <= i < ws.len() implies is_word(#[trigger] ws[i]) by {}
        lemma_tokens_spaced(ws);
    }
}

} // verus!
