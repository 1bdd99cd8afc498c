// A graph hierarchy that contains itself.
//
// A graph lowering its own body catches `a` instantiating `a`, because that is
// the one cycle visible from inside a single declaration. It cannot see `a`
// instantiating `b` and `b` instantiating `a`, and that pair would produce two
// Verilog modules instantiating one another, which is not a finite piece of
// hardware. Structural elaboration has no base case to stop at -- no `if`
// around an instance, no recursion depth to bottom out -- so a cycle in the
// instantiation edges is unbuildable however deep it is, and the whole cycle
// is named rather than just the edge that closed it.
//
// Feedback through a pipe inside a finite hierarchy is a different thing and
// stays legal: only instantiation edges are walked here.

use vstd::prelude::*;
use crate::diag::{Span, DiagSink, saids, error_with_note};
use crate::ir_graph::Report;
use crate::ir_export::{names, lemma_names_push};
use crate::syntax::{GraphDecl, GraphStmt};

verus! {

/// A graph, as the cycle check sees it: its name, and for each instance the
/// module it builds and where it names it.
#[derive(Debug)]
pub struct GraphUses {
    pub name: String,
    pub instances: Vec<(String, Span)>,
}

pub open spec fn uses_view(v: Seq<(String, Span)>) -> Seq<(Seq<char>, Span)> {
    v.map_values(|u: (String, Span)| (u.0@, u.1))
}

/// The instances of every graph named `n`, in order: declarations that share
/// a name share their instances.
pub open spec fn merged(gs: Seq<GraphUses>, n: Seq<char>) -> Seq<(Seq<char>, Span)>
    decreases gs.len(),
{
    if gs.len() == 0 {
        Seq::empty()
    } else {
        merged(gs.drop_last(), n) + (if gs.last().name@ == n {
            uses_view(gs.last().instances@)
        } else {
            Seq::empty()
        })
    }
}

/// Some graph is named `n`.
pub open spec fn is_graph(gs: Seq<GraphUses>, n: Seq<char>) -> bool {
    exists|i: int| 0 <= i < gs.len() && #[trigger] gs[i].name@ == n
}

/// A graph named `a` instantiates `b`, naming it at `at`.
pub open spec fn instantiates(gs: Seq<GraphUses>, a: Seq<char>, b: Seq<char>, at: Span) -> bool {
    exists|i: int, j: int|
        0 <= i < gs.len() && 0 <= j < gs[i].instances@.len() && gs[i].name@ == a && #[trigger] gs[i].instances@[j].0@
            == b && gs[i].instances@[j].1 == at
}

/// `a` instantiates the graph `b`: an edge of the hierarchy. Anything that
/// is not a graph is a leaf and closes no cycle.
pub open spec fn edge(gs: Seq<GraphUses>, a: Seq<char>, b: Seq<char>) -> bool {
    is_graph(gs, b) && exists|at: Span| #[trigger] instantiates(gs, a, b, at)
}

/// `p` goes round the hierarchy and back to where it started.
pub open spec fn is_cycle(gs: Seq<GraphUses>, p: Seq<Seq<char>>) -> bool {
    &&& p.len() >= 2
    &&& p[0] == p.last()
    &&& forall|k: int| 0 <= k < p.len() - 1 ==> #[trigger] edge(gs, p[k], p[k + 1])
}

/// The hierarchy contains itself somewhere.
pub open spec fn has_cycle(gs: Seq<GraphUses>) -> bool {
    exists|p: Seq<Seq<char>>| #[trigger] is_cycle(gs, p)
}

/// The names of a path, `a -> b -> c`.
pub open spec fn arrows(p: Seq<Seq<char>>) -> Seq<char>
    decreases p.len(),
{
    if p.len() == 0 {
        Seq::empty()
    } else {
        arrows(p.drop_last()) + (if p.len() > 1 { " -> "@ } else { Seq::empty() }) + p.last()
    }
}

/// What a cycle is reported as: a one-node cycle reads better as what it
/// is.
pub open spec fn cycle_msg(p: Seq<Seq<char>>) -> Seq<char> {
    if p.len() <= 2 {
        "`"@ + p.last() + "` cannot instantiate itself"@
    } else {
        "`"@ + p.last() + "` instantiates itself through "@ + arrows(p)
    }
}

pub open spec fn cycle_note() -> Seq<char> {
    "a graph is elaborated structurally, so a hierarchy that contains itself has no finite hardware; feedback between instances belongs on a pipe, not on an instantiation"@
}

/// `d` reports a real cycle, against an edge that closes it.
pub open spec fn reports_cycle(gs: Seq<GraphUses>, d: Report) -> bool {
    exists|p: Seq<Seq<char>>, at: Span|
        #![trigger is_cycle(gs, p), instantiates(gs, p[p.len() - 2], p.last(), at)]
        is_cycle(gs, p) && instantiates(gs, p[p.len() - 2], p.last(), at) && d == error_with_note(at, cycle_msg(p), cycle_note())
}

/// `d` reports a cycle that closes at graph `g`: the path ends back at `g`.
pub open spec fn reports_cycle_at(gs: Seq<GraphUses>, d: Report, g: Seq<char>) -> bool {
    exists|p: Seq<Seq<char>>, at: Span|
        #![trigger is_cycle(gs, p), instantiates(gs, p[p.len() - 2], p.last(), at)]
        is_cycle(gs, p) && instantiates(gs, p[p.len() - 2], p.last(), at) && p.last() == g
            && d == error_with_note(at, cycle_msg(p), cycle_note())
}

/// The reports from `from` on close their cycles at the graphs `cl` lists,
/// in order, no graph twice.
pub open spec fn closers_named(gs: Seq<GraphUses>, ds: Seq<Report>, from: int, cl: Seq<Seq<char>>) -> bool {
    &&& cl.len() == ds.len() - from
    &&& cl.no_duplicates()
    &&& forall|k: int| 0 <= k < cl.len() ==> reports_cycle_at(gs, ds[from + k], #[trigger] cl[k])
}

/// The walk's reports so far: each closes at the node `cl` lists for it, in
/// order, each node at most once and marked reported.
pub open spec fn closers_ok(gs: Seq<GraphUses>, ns: Seq<Seq<char>>, reported: Seq<bool>, cl: Seq<int>, d0: Seq<Report>, ds: Seq<Report>) -> bool {
    &&& ds.len() == d0.len() + cl.len()
    &&& cl.no_duplicates()
    &&& forall|k: int| 0 <= k < cl.len() ==> 0 <= #[trigger] cl[k] < ns.len() && cl[k] < reported.len() && reported[cl[k]]
        && reports_cycle_at(gs, ds[d0.len() + k], ns[cl[k]])
}

/// An entry of `merged` comes from a graph of that name.
proof fn lemma_merged_from(gs: Seq<GraphUses>, n: Seq<char>, k: int)
    requires
        0 <= k < merged(gs, n).len(),
    ensures
        exists|i: int, j: int|
            0 <= i < gs.len() && 0 <= j < gs[i].instances@.len() && gs[i].name@ == n && #[trigger] gs[i].instances@[j].0@
                == merged(gs, n)[k].0 && gs[i].instances@[j].1 == merged(gs, n)[k].1,
    decreases gs.len(),
{
    let prev = merged(gs.drop_last(), n);
    if k < prev.len() {
        lemma_merged_from(gs.drop_last(), n, k);
        let (i, j) = choose|i: int, j: int|
            0 <= i < gs.drop_last().len() && 0 <= j < gs.drop_last()[i].instances@.len() && gs.drop_last()[i].name@ == n
                && #[trigger] gs.drop_last()[i].instances@[j].0@ == prev[k].0 && gs.drop_last()[i].instances@[j].1
                == prev[k].1;
        assert(gs[i] == gs.drop_last()[i]);
        assert(gs[i].instances@[j].0@ == merged(gs, n)[k].0);
    } else {
        let i = gs.len() - 1;
        let j = k - prev.len();
        assert(gs.last().name@ == n);
        assert(gs[i].instances@[j].0@ == merged(gs, n)[k].0);
    }
}

/// Every instance of a graph named `n` is an entry of `merged`.
proof fn lemma_merged_has(gs: Seq<GraphUses>, n: Seq<char>, i: int, j: int)
    requires
        0 <= i < gs.len(),
        0 <= j < gs[i].instances@.len(),
        gs[i].name@ == n,
    ensures
        exists|k: int| 0 <= k < merged(gs, n).len() && #[trigger] merged(gs, n)[k] == (gs[i].instances@[j].0@, gs[i].instances@[j].1),
    decreases gs.len(),
{
    let prev = merged(gs.drop_last(), n);
    if i < gs.len() - 1 {
        assert(gs.drop_last()[i] == gs[i]);
        lemma_merged_has(gs.drop_last(), n, i, j);
        let k = choose|k: int| 0 <= k < prev.len() && #[trigger] prev[k] == (gs[i].instances@[j].0@, gs[i].instances@[j].1);
        assert(merged(gs, n)[k] == prev[k]);
    } else {
        let k = prev.len() + j;
        assert(merged(gs, n)[k] == uses_view(gs.last().instances@)[j]);
    }
}

/// The hierarchy by node: `nodes` the graph names, each once; `outs[u]` the
/// instances of the graphs named `nodes[u]`; `tg[u][k]` the node the `k`-th of
/// them builds, or `None` for a leaf.
pub open spec fn graph_ok(gs: Seq<GraphUses>, nodes: Seq<Seq<char>>, outs: Seq<Seq<(Seq<char>, Span)>>, tg: Seq<Seq<Option<usize>>>) -> bool {
    &&& nodes.no_duplicates()
    &&& forall|w: int| 0 <= w < nodes.len() ==> is_graph(gs, #[trigger] nodes[w])
    &&& forall|i: int| 0 <= i < gs.len() ==> nodes.contains(#[trigger] gs[i].name@)
    &&& outs.len() == nodes.len()
    &&& tg.len() == nodes.len()
    &&& forall|u: int| 0 <= u < nodes.len() ==> #[trigger] outs[u] == merged(gs, nodes[u]) && tg[u].len() == outs[u].len()
    &&& forall|u: int, k: int|
        0 <= u < nodes.len() && 0 <= k < tg[u].len() ==> match #[trigger] tg[u][k] {
            Some(w) => w < nodes.len() && nodes[w as int] == outs[u][k].0,
            None => !nodes.contains(outs[u][k].0),
        }
}

/// A node's target is an edge of the hierarchy, named where the instance is.
proof fn lemma_tg_edge(gs: Seq<GraphUses>, nodes: Seq<Seq<char>>, outs: Seq<Seq<(Seq<char>, Span)>>, tg: Seq<Seq<Option<usize>>>, u: int, k: int)
    requires
        graph_ok(gs, nodes, outs, tg),
        0 <= u < nodes.len(),
        0 <= k < tg[u].len(),
        tg[u][k] is Some,
    ensures
        edge(gs, nodes[u], nodes[tg[u][k]->0 as int]),
        instantiates(gs, nodes[u], nodes[tg[u][k]->0 as int], outs[u][k].1),
{
    let w = tg[u][k]->0 as int;
    assert(outs[u] == merged(gs, nodes[u]));
    lemma_merged_from(gs, nodes[u], k);
    assert(is_graph(gs, nodes[w]));
    assert(instantiates(gs, nodes[u], nodes[w], outs[u][k].1));
}

/// An edge of the hierarchy is some target of its source node.
proof fn lemma_edge_tg(gs: Seq<GraphUses>, nodes: Seq<Seq<char>>, outs: Seq<Seq<(Seq<char>, Span)>>, tg: Seq<Seq<Option<usize>>>, u: int, b: Seq<char>)
    requires
        graph_ok(gs, nodes, outs, tg),
        0 <= u < nodes.len(),
        edge(gs, nodes[u], b),
    ensures
        exists|k: int| 0 <= k < tg[u].len() && #[trigger] tg[u][k] is Some && nodes[tg[u][k]->0 as int] == b,
{
    let at = choose|at: Span| #[trigger] instantiates(gs, nodes[u], b, at);
    let (i, j) = choose|i: int, j: int|
        0 <= i < gs.len() && 0 <= j < gs[i].instances@.len() && gs[i].name@ == nodes[u] && #[trigger] gs[i].instances@[j].0@
            == b && gs[i].instances@[j].1 == at;
    lemma_merged_has(gs, nodes[u], i, j);
    let k = choose|k: int| 0 <= k < merged(gs, nodes[u]).len() && #[trigger] merged(gs, nodes[u])[k] == (
        gs[i].instances@[j].0@, gs[i].instances@[j].1);
    assert(outs[u][k].0 == b);
    let gi = choose|g: int| 0 <= g < gs.len() && #[trigger] gs[g].name@ == b;
    assert(nodes.contains(gs[gi].name@));
    match tg[u][k] {
        Some(w) => {},
        None => {},
    }
}

/// Whether `v` holds a string with the text of `x`, and where first.
fn index_of(v: &Vec<String>, x: &String) -> (r: Option<usize>)
    ensures
        match r {
            Some(w) => w < v@.len() && v@[w as int]@ == x@,
            None => !names(v@).contains(x@),
        },
{
    let mut k: usize = 0;
    while k < v.len()
        invariant
            k <= v@.len(),
            forall|j: int| 0 <= j < k ==> v@[j]@ != x@,
        decreases v@.len() - k,
    {
        if v[k] == *x {
            return Some(k);
        }
        k = k + 1;
    }
    proof {
        if names(v@).contains(x@) {
            let j = choose|j: int| 0 <= j < names(v@).len() && names(v@)[j] == x@;
            assert(v@[j]@ == x@);
        }
    }
    None
}

/// The graph names, each once, in the order first declared.
fn graph_nodes(gs: &Vec<GraphUses>) -> (nodes: Vec<String>)
    ensures
        names(nodes@).no_duplicates(),
        forall|w: int| 0 <= w < nodes@.len() ==> is_graph(gs@, #[trigger] names(nodes@)[w]),
        forall|i: int| 0 <= i < gs@.len() ==> names(nodes@).contains(#[trigger] gs@[i].name@),
{
    let mut nodes: Vec<String> = Vec::new();
    let mut i: usize = 0;
    while i < gs.len()
        invariant
            i <= gs@.len(),
            names(nodes@).no_duplicates(),
            forall|w: int| 0 <= w < nodes@.len() ==> is_graph(gs@, #[trigger] names(nodes@)[w]),
            forall|k: int| 0 <= k < i ==> names(nodes@).contains(#[trigger] gs@[k].name@),
        decreases gs@.len() - i,
    {
        let found = index_of(&nodes, &gs[i].name);
        if let Some(w) = found {
            proof {
                assert(names(nodes@)[w as int] == gs@[i as int].name@);
            }
        }
        if found.is_none() {
            let ghost before = nodes@;
            nodes.push(gs[i].name.clone());
            proof {
                lemma_names_push(before, nodes@.last());
                assert(names(nodes@).last() == gs@[i as int].name@);
                assert forall|k: int| 0 <= k < i + 1 implies names(nodes@).contains(#[trigger] gs@[k].name@) by {
                    if k < i {
                        let j = choose|j: int| 0 <= j < names(before).len() && names(before)[j] == gs@[k].name@;
                        assert(names(nodes@)[j] == gs@[k].name@);
                    } else {
                        assert(names(nodes@)[names(nodes@).len() - 1] == gs@[k].name@);
                    }
                }
            }
        }
        i = i + 1;
    }
    nodes
}

/// The instances of every graph named `n`, in order.
fn merged_uses(gs: &Vec<GraphUses>, n: &String) -> (r: Vec<(String, Span)>)
    ensures
        uses_view(r@) == merged(gs@, n@),
{
    let mut r: Vec<(String, Span)> = Vec::new();
    let mut i: usize = 0;
    while i < gs.len()
        invariant
            i <= gs@.len(),
            uses_view(r@) == merged(gs@.take(i as int), n@),
        decreases gs@.len() - i,
    {
        proof {
            assert(gs@.take(i + 1).drop_last() =~= gs@.take(i as int));
        }
        let g = &gs[i];
        if g.name == *n {
            let ghost base = uses_view(r@);
            let mut j: usize = 0;
            while j < g.instances.len()
                invariant
                    j <= g.instances@.len(),
                    uses_view(r@) == base + uses_view(g.instances@).take(j as int),
                decreases g.instances@.len() - j,
            {
                let ghost before = r@;
                let name = g.instances[j].0.clone();
                r.push((name, g.instances[j].1));
                proof {
                    assert(uses_view(r@) =~= uses_view(before).push(uses_view(g.instances@)[j as int]));
                    assert(uses_view(g.instances@).take(j + 1) =~= uses_view(g.instances@).take(j as int).push(
                        uses_view(g.instances@)[j as int]));
                    assert(uses_view(r@) =~= base + uses_view(g.instances@).take(j + 1));
                }
                j = j + 1;
            }
            proof {
                assert(uses_view(g.instances@).take(j as int) =~= uses_view(g.instances@));
            }
        }
        i = i + 1;
    }
    proof {
        assert(gs@.take(i as int) =~= gs@);
    }
    r
}

pub open spec fn outs_view(v: Seq<Vec<(String, Span)>>) -> Seq<Seq<(Seq<char>, Span)>> {
    v.map_values(|o: Vec<(String, Span)>| uses_view(o@))
}

pub open spec fn tg_view(v: Seq<Vec<Option<usize>>>) -> Seq<Seq<Option<usize>>> {
    v.map_values(|t: Vec<Option<usize>>| t@)
}

/// The hierarchy by node; see `graph_ok`.
fn build_graph(gs: &Vec<GraphUses>) -> (r: (Vec<String>, Vec<Vec<(String, Span)>>, Vec<Vec<Option<usize>>>))
    ensures
        graph_ok(gs@, names(r.0@), outs_view(r.1@), tg_view(r.2@)),
{
    let nodes = graph_nodes(gs);
    let ghost ns = names(nodes@);
    let mut outs: Vec<Vec<(String, Span)>> = Vec::new();
    let mut tg: Vec<Vec<Option<usize>>> = Vec::new();
    let mut u: usize = 0;
    while u < nodes.len()
        invariant
            u <= nodes@.len(),
            ns == names(nodes@),
            outs@.len() == u,
            tg@.len() == u,
            forall|v: int| 0 <= v < u ==> #[trigger] outs_view(outs@)[v] == merged(gs@, ns[v]) && tg_view(tg@)[v].len()
                == outs_view(outs@)[v].len(),
            forall|v: int, k: int|
                0 <= v < u && 0 <= k < tg_view(tg@)[v].len() ==> match #[trigger] tg_view(tg@)[v][k] {
                    Some(w) => w < ns.len() && ns[w as int] == outs_view(outs@)[v][k].0,
                    None => !ns.contains(outs_view(outs@)[v][k].0),
                },
        decreases nodes@.len() - u,
    {
        let o = merged_uses(gs, &nodes[u]);
        let mut t: Vec<Option<usize>> = Vec::new();
        let mut k: usize = 0;
        while k < o.len()
            invariant
                k <= o@.len(),
                ns == names(nodes@),
                t@.len() == k,
                forall|j: int| 0 <= j < k ==> match #[trigger] t@[j] {
                    Some(w) => w < ns.len() && ns[w as int] == uses_view(o@)[j].0,
                    None => !ns.contains(uses_view(o@)[j].0),
                },
            decreases o@.len() - k,
        {
            t.push(index_of(&nodes, &o[k].0));
            k = k + 1;
        }
        let ghost outs0 = outs@;
        let ghost tg0 = tg@;
        let ghost ov = o@;
        let ghost tv = t@;
        outs.push(o);
        tg.push(t);
        proof {
            assert(outs@[u as int]@ == ov);
            assert(tg@[u as int]@ == tv);
            assert(outs_view(outs@)[u as int] == uses_view(ov));
            assert(tg_view(tg@)[u as int] == tv);
            assert forall|v: int| 0 <= v < u + 1 implies #[trigger] outs_view(outs@)[v] == merged(gs@, ns[v])
                && tg_view(tg@)[v].len() == outs_view(outs@)[v].len() by {
                if v < u {
                    assert(outs@[v] == outs0[v]);
                    assert(tg@[v] == tg0[v]);
                    assert(outs_view(outs@)[v] == outs_view(outs0)[v]);
                    assert(tg_view(tg@)[v] == tg_view(tg0)[v]);
                } else {
                    assert(ns[v] == nodes@[u as int]@);
                    assert(merged(gs@, ns[v]) == uses_view(ov));
                    assert(tv.len() == ov.len());
                }
            }
            assert forall|v: int, k: int| 0 <= v < u + 1 && 0 <= k < tg_view(tg@)[v].len() implies match #[trigger] tg_view(tg@)[v][k] {
                Some(w) => w < ns.len() && ns[w as int] == outs_view(outs@)[v][k].0,
                None => !ns.contains(outs_view(outs@)[v][k].0),
            } by {
                if v < u {
                    assert(outs@[v] == outs0[v]);
                    assert(tg@[v] == tg0[v]);
                    assert(tg_view(tg0)[v][k] == tg_view(tg@)[v][k]);
                }
            }
        }
        u = u + 1;
    }
    (nodes, outs, tg)
}

/// What is left to do for one node: a node not yet seen has all its edges
/// and its two colour changes ahead of it; one on the path has its
/// unexplored edges and being finished; a finished one nothing.
pub open spec fn weight(marks: Seq<u8>, cursor: Seq<usize>, tg: Seq<Seq<Option<usize>>>, u: int) -> nat {
    if marks[u] == 0 {
        tg[u].len() + 2
    } else if marks[u] == 1 {
        (tg[u].len() - cursor[u] + 1) as nat
    } else {
        0
    }
}

pub open spec fn sum(ws: Seq<nat>) -> nat
    decreases ws.len(),
{
    if ws.len() == 0 {
        0
    } else {
        sum(ws.drop_last()) + ws.last()
    }
}

pub open spec fn weights(marks: Seq<u8>, cursor: Seq<usize>, tg: Seq<Seq<Option<usize>>>) -> Seq<nat> {
    Seq::new(tg.len(), |u: int| weight(marks, cursor, tg, u))
}

proof fn lemma_sum_update(ws: Seq<nat>, u: int, x: nat)
    requires
        0 <= u < ws.len(),
    ensures
        sum(ws.update(u, x)) + ws[u] == sum(ws) + x,
    decreases ws.len(),
{
    if u == ws.len() - 1 {
        assert(ws.update(u, x).drop_last() =~= ws.drop_last());
    } else {
        lemma_sum_update(ws.drop_last(), u, x);
        assert(ws.update(u, x).drop_last() =~= ws.drop_last().update(u, x));
    }
}

/// Changing one node's colour or cursor changes its weight and no other.
proof fn lemma_weights_update(m1: Seq<u8>, c1: Seq<usize>, m2: Seq<u8>, c2: Seq<usize>, tg: Seq<Seq<Option<usize>>>, u: int)
    requires
        0 <= u < tg.len(),
        m1.len() == tg.len(),
        c1.len() == tg.len(),
        m2.len() == tg.len(),
        c2.len() == tg.len(),
        forall|v: int| 0 <= v < tg.len() && v != u ==> m1[v] == m2[v] && c1[v] == c2[v],
    ensures
        sum(weights(m2, c2, tg)) + weight(m1, c1, tg, u) == sum(weights(m1, c1, tg)) + weight(m2, c2, tg, u),
{
    let w1 = weights(m1, c1, tg);
    assert(weights(m2, c2, tg) =~= w1.update(u, weight(m2, c2, tg, u)));
    lemma_sum_update(w1, u, weight(m2, c2, tg, u));
}

/// The walk's state is sound: colours, cursors and the path agree, every
/// diagnostic since `d0` reports a real cycle, and while there is none every
/// finished node's edges go to finished nodes of lower rank.
pub open spec fn walk_ok(
    gs: Seq<GraphUses>,
    nodes: Seq<Seq<char>>,
    outs: Seq<Seq<(Seq<char>, Span)>>,
    tg: Seq<Seq<Option<usize>>>,
    marks: Seq<u8>,
    cursor: Seq<usize>,
    reported: Seq<bool>,
    stack: Seq<usize>,
    rank: Seq<nat>,
    count: nat,
    d0: Seq<Report>,
    ds: Seq<Report>,
) -> bool {
    let n = nodes.len();
    &&& graph_ok(gs, nodes, outs, tg)
    &&& marks.len() == n
    &&& cursor.len() == n
    &&& reported.len() == n
    &&& rank.len() == n
    &&& forall|u: int| 0 <= u < n ==> #[trigger] marks[u] <= 2 && cursor[u] <= tg[u].len() && (marks[u] == 0 ==> cursor[u] == 0)
    &&& forall|f: int| 0 <= f < stack.len() ==> #[trigger] stack[f] < n && marks[stack[f] as int] == 1
    &&& forall|u: int| 0 <= u < n && #[trigger] marks[u] == 1 ==> exists|f: int| 0 <= f < stack.len() && stack[f] as int == u
    &&& stack.no_duplicates()
    &&& forall|f: int| 0 <= f < stack.len() - 1 ==> cursor[#[trigger] stack[f] as int] >= 1 && tg[stack[f] as int][cursor[stack[f] as int] - 1] == Some(stack[f + 1])
    &&& ds.len() >= d0.len()
    &&& ds.subrange(0, d0.len() as int) == d0
    &&& forall|k: int| d0.len() <= k < ds.len() ==> reports_cycle(gs, #[trigger] ds[k])
    &&& forall|u: int| 0 <= u < n && #[trigger] reported[u] ==> ds.len() > d0.len()
    &&& ds.len() == d0.len() ==> {
        &&& forall|u: int| 0 <= u < n && #[trigger] marks[u] == 2 ==> rank[u] < count
        &&& forall|u: int, k: int| 0 <= u < n && marks[u] == 2 && 0 <= k < tg[u].len() && #[trigger] tg[u][k] is Some ==> marks[tg[u][k]->0 as int] == 2 && rank[tg[u][k]->0 as int] < rank[u]
        &&& forall|f: int, k: int| 0 <= f < stack.len() && 0 <= k < cursor[stack[f] as int] && !(f < stack.len() - 1 && k == cursor[stack[f] as int] - 1) && #[trigger] tg[stack[f] as int][k] is Some ==> marks[tg[stack[f] as int][k]->0 as int] == 2
    }
}

/// The path from stack frame `s` to the top, then `c`.
pub open spec fn path_of(nodes: Seq<Seq<char>>, stack: Seq<usize>, s: int, c: usize) -> Seq<Seq<char>> {
    Seq::new((stack.len() - s) as nat, |k: int| nodes[stack[s + k] as int]).push(nodes[c as int])
}

/// The path from a frame to the top, closed by an edge from the top back to
/// that frame's node, is a cycle.
proof fn lemma_path_is_cycle(
    gs: Seq<GraphUses>,
    nodes: Seq<Seq<char>>,
    outs: Seq<Seq<(Seq<char>, Span)>>,
    tg: Seq<Seq<Option<usize>>>,
    cursor: Seq<usize>,
    stack: Seq<usize>,
    s: int,
    ix: int,
)
    requires
        graph_ok(gs, nodes, outs, tg),
        cursor.len() == nodes.len(),
        0 <= s < stack.len(),
        forall|f: int| 0 <= f < stack.len() ==> #[trigger] stack[f] < nodes.len(),
        forall|f: int| 0 <= f < stack.len() - 1 ==> cursor[#[trigger] stack[f] as int] >= 1 && tg[stack[f] as int][cursor[stack[f] as int] - 1] == Some(stack[f + 1]),
        forall|u: int| 0 <= u < nodes.len() ==> #[trigger] cursor[u] <= tg[u].len(),
        0 <= ix < tg[stack.last() as int].len(),
        tg[stack.last() as int][ix] == Some(stack[s]),
    ensures
        is_cycle(gs, path_of(nodes, stack, s, stack[s])),
        instantiates(gs, nodes[stack.last() as int], nodes[stack[s] as int], outs[stack.last() as int][ix].1),
{
    let p = path_of(nodes, stack, s, stack[s]);
    let top = stack.len() - 1;
    lemma_tg_edge(gs, nodes, outs, tg, stack[top] as int, ix);
    assert forall|k: int| 0 <= k < p.len() - 1 implies #[trigger] edge(gs, p[k], p[k + 1]) by {
        if k < p.len() - 2 {
            let f = s + k;
            assert(p[k] == nodes[stack[f] as int]);
            assert(p[k + 1] == nodes[stack[f + 1] as int]);
            lemma_tg_edge(gs, nodes, outs, tg, stack[f] as int, cursor[stack[f] as int] - 1);
        } else {
            assert(p[k] == nodes[stack[top] as int]);
            assert(p[k + 1] == nodes[stack[s] as int]);
        }
    }
}

/// The index of the node named `n`.
pub open spec fn ix_of(nodes: Seq<Seq<char>>, n: Seq<char>) -> int {
    choose|w: int| 0 <= w < nodes.len() && nodes[w] == n
}

/// Along a path of edges, rank falls at every step.
proof fn lemma_rank_falls(
    gs: Seq<GraphUses>,
    nodes: Seq<Seq<char>>,
    outs: Seq<Seq<(Seq<char>, Span)>>,
    tg: Seq<Seq<Option<usize>>>,
    marks: Seq<u8>,
    rank: Seq<nat>,
    p: Seq<Seq<char>>,
    j: int,
)
    requires
        graph_ok(gs, nodes, outs, tg),
        marks.len() == nodes.len(),
        rank.len() == nodes.len(),
        forall|u: int| 0 <= u < nodes.len() ==> #[trigger] marks[u] == 2,
        forall|u: int, k: int| 0 <= u < nodes.len() && marks[u] == 2 && 0 <= k < tg[u].len() && #[trigger] tg[u][k] is Some ==> marks[tg[u][k]->0 as int] == 2 && rank[tg[u][k]->0 as int] < rank[u],
        1 <= j < p.len(),
        nodes.contains(p[0]),
        forall|k: int| 0 <= k < p.len() - 1 ==> #[trigger] edge(gs, p[k], p[k + 1]),
    ensures
        nodes.contains(p[j]),
        rank[ix_of(nodes, p[j])] < rank[ix_of(nodes, p[0])],
    decreases j,
{
    let a = if j == 1 { p[0] } else { p[j - 1] };
    if j > 1 {
        lemma_rank_falls(gs, nodes, outs, tg, marks, rank, p, j - 1);
    }
    let q = j - 1;
    assert(edge(gs, p[q], p[q + 1]));
    assert(p[q + 1] == p[j]);
    let u = ix_of(nodes, p[j - 1]);
    assert(0 <= u < nodes.len() && nodes[u] == p[j - 1]);
    lemma_edge_tg(gs, nodes, outs, tg, u, p[j]);
    let k = choose|k: int| 0 <= k < tg[u].len() && #[trigger] tg[u][k] is Some && nodes[tg[u][k]->0 as int] == p[j];
    let w = tg[u][k]->0 as int;
    assert(nodes.contains(p[j]));
    let w2 = ix_of(nodes, p[j]);
    assert(nodes[w2] == p[j] && nodes[w] == p[j]);
    assert(w2 == w);
}

/// With every node finished and every edge falling in rank, there is no
/// cycle.
proof fn lemma_no_cycle(
    gs: Seq<GraphUses>,
    nodes: Seq<Seq<char>>,
    outs: Seq<Seq<(Seq<char>, Span)>>,
    tg: Seq<Seq<Option<usize>>>,
    marks: Seq<u8>,
    rank: Seq<nat>,
)
    requires
        graph_ok(gs, nodes, outs, tg),
        marks.len() == nodes.len(),
        rank.len() == nodes.len(),
        forall|u: int| 0 <= u < nodes.len() ==> #[trigger] marks[u] == 2,
        forall|u: int, k: int| 0 <= u < nodes.len() && marks[u] == 2 && 0 <= k < tg[u].len() && #[trigger] tg[u][k] is Some ==> marks[tg[u][k]->0 as int] == 2 && rank[tg[u][k]->0 as int] < rank[u],
    ensures
        !has_cycle(gs),
{
    if has_cycle(gs) {
        let p = choose|p: Seq<Seq<char>>| #[trigger] is_cycle(gs, p);
        let q = p.len() - 2;
        assert(edge(gs, p[q], p[q + 1]));
        let gi = choose|i: int| 0 <= i < gs.len() && #[trigger] gs[i].name@ == p[p.len() - 1];
        assert(nodes.contains(gs[gi].name@));
        lemma_rank_falls(gs, nodes, outs, tg, marks, rank, p, p.len() - 1);
    }
}

/// Names joined by arrows.
fn join_arrows(v: &Vec<String>) -> (s: String)
    ensures
        s@ == arrows(names(v@)),
{
    let ghost ns = names(v@);
    let mut s = String::new();
    let mut i: usize = 0;
    while i < v.len()
        invariant
            i <= v@.len(),
            ns == names(v@),
            s@ == arrows(ns.take(i as int)),
        decreases v@.len() - i,
    {
        proof {
            assert(ns.take(i + 1).drop_last() =~= ns.take(i as int));
        }
        if i > 0 {
            s.append(" -> ");
        }
        s.append(v[i].as_str());
        i = i + 1;
    }
    proof {
        assert(ns.take(i as int) =~= ns);
    }
    s
}

/// Reports the cycle closed by the edge `tg[u][ix]` from the top of the path
/// back to `c`, which is on it: the path from `c` to the top, then `c`.
fn report_cycle(
    gs: &Vec<GraphUses>,
    nodes: &Vec<String>,
    outs: &Vec<Vec<(String, Span)>>,
    tg: &Vec<Vec<Option<usize>>>,
    cursor: &Vec<usize>,
    stack: &Vec<usize>,
    ix: usize,
    c: usize,
    sink: &mut DiagSink,
)
    requires
        graph_ok(gs@, names(nodes@), outs_view(outs@), tg_view(tg@)),
        cursor@.len() == nodes@.len(),
        stack@.len() > 0,
        stack@.contains(c),
        forall|f: int| 0 <= f < stack@.len() ==> #[trigger] stack@[f] < nodes@.len(),
        forall|f: int| 0 <= f < stack@.len() - 1 ==> cursor@[#[trigger] stack@[f] as int] >= 1 && tg_view(tg@)[stack@[f] as int][cursor@[stack@[f] as int] - 1] == Some(stack@[f + 1]),
        forall|u: int| 0 <= u < nodes@.len() ==> #[trigger] cursor@[u] <= tg_view(tg@)[u].len(),
        ix < tg_view(tg@)[stack@.last() as int].len(),
        tg_view(tg@)[stack@.last() as int][ix as int] == Some(c),
    ensures
        *final(sink).map == *old(sink).map,
        saids(final(sink).diags@).len() == saids(old(sink).diags@).len() + 1,
        saids(final(sink).diags@).drop_last() == saids(old(sink).diags@),
        reports_cycle(gs@, saids(final(sink).diags@).last()),
        reports_cycle_at(gs@, saids(final(sink).diags@).last(), names(nodes@)[c as int]),
{
    let ghost ns = names(nodes@);
    let mut s: usize = 0;
    while s < stack.len() && stack[s] != c
        invariant
            s <= stack@.len(),
            stack@.contains(c),
            forall|f: int| 0 <= f < s ==> stack@[f] != c,
        decreases stack@.len() - s,
    {
        s = s + 1;
    }
    proof {
        if s == stack@.len() {
            let f = choose|f: int| 0 <= f < stack@.len() && stack@[f] == c;
            assert(false);
        }
    }
    let mut path: Vec<String> = Vec::new();
    let mut f: usize = s;
    while f < stack.len()
        invariant
            s <= f <= stack@.len(),
            ns == names(nodes@),
            forall|g: int| 0 <= g < stack@.len() ==> #[trigger] stack@[g] < nodes@.len(),
            names(path@) == Seq::new((f - s) as nat, |k: int| ns[stack@[s + k] as int]),
        decreases stack@.len() - f,
    {
        let ghost before = path@;
        path.push(nodes[stack[f]].clone());
        proof {
            lemma_names_push(before, path@.last());
            assert(names(path@) =~= Seq::new((f + 1 - s) as nat, |k: int| ns[stack@[s + k] as int]));
        }
        f = f + 1;
    }
    let ghost before = path@;
    path.push(nodes[c].clone());
    let u = stack[stack.len() - 1];
    proof {
        lemma_names_push(before, path@.last());
        assert(names(path@) =~= path_of(ns, stack@, s as int, c));
        lemma_path_is_cycle(gs@, ns, outs_view(outs@), tg_view(tg@), cursor@, stack@, s as int, ix as int);
        assert(outs_view(outs@)[u as int] == merged(gs@, ns[u as int]));
        assert(tg_view(tg@)[u as int].len() == outs_view(outs@)[u as int].len());
        assert(outs_view(outs@)[u as int][ix as int].1 == outs@[u as int]@[ix as int].1);
    }
    let mut msg = String::from_str("`");
    msg.append(nodes[c].as_str());
    if path.len() <= 2 {
        msg.append("` cannot instantiate itself");
    } else {
        msg.append("` instantiates itself through ");
        msg.append(join_arrows(&path).as_str());
    }
    let at = outs[u][ix].1;
    sink.err_note(at, msg, String::from_str(
        "a graph is elaborated structurally, so a hierarchy that contains itself has no finite hardware; feedback between instances belongs on a pipe, not on an instantiation"));
    proof {
        let p = names(path@);
        assert(p.last() == ns[c as int]);
        assert(p[p.len() - 2] == ns[u as int]);
        assert(saids(sink.diags@).last() == error_with_note(at, cycle_msg(p), cycle_note()));
    }
}

/// Exploring one more edge of the node on top of the path, to a leaf, a
/// finished node, or one on the path (reported now or before).
proof fn lemma_step_explore(
    gs: Seq<GraphUses>,
    ns: Seq<Seq<char>>,
    ov: Seq<Seq<(Seq<char>, Span)>>,
    tv: Seq<Seq<Option<usize>>>,
    m: Seq<u8>,
    c1: Seq<usize>,
    r1: Seq<bool>,
    r2: Seq<bool>,
    st: Seq<usize>,
    rank: Seq<nat>,
    count: nat,
    d0: Seq<Report>,
    ds1: Seq<Report>,
    ds2: Seq<Report>,
    ix: int,
)
    requires
        walk_ok(gs, ns, ov, tv, m, c1, r1, st, rank, count, d0, ds1),
        st.len() > 0,
        c1[st.last() as int] == ix,
        0 <= ix < tv[st.last() as int].len(),
        ix < usize::MAX,
        ({
            let t = tv[st.last() as int][ix];
            ||| (ds2 == ds1 && r2 == r1 && (t is None || m[t->0 as int] == 2 || (m[t->0 as int] == 1 && r1[t->0 as int])))
            ||| (t is Some && m[t->0 as int] == 1 && ds2.len() == ds1.len() + 1 && ds2.drop_last() == ds1 && reports_cycle(
                gs,
                ds2.last(),
            ) && r2 == r1.update(t->0 as int, true))
        }),
    ensures
        walk_ok(gs, ns, ov, tv, m, c1.update(st.last() as int, (ix + 1) as usize), r2, st, rank, count, d0, ds2),
{
    let u = st.last() as int;
    let c2 = c1.update(u, (ix + 1) as usize);
    let top = st.len() - 1;
    assert(st[top] == u);
    assert forall|f: int| 0 <= f < st.len() - 1 implies st[f] != u by {
        assert(st[f] != st[top]);
    }
    assert forall|f: int| 0 <= f < st.len() - 1 implies c2[#[trigger] st[f] as int] >= 1 && tv[st[f] as int][c2[st[f] as int] - 1] == Some(st[f + 1]) by {
        assert(st[f] != u);
    }
    assert forall|w: int| 0 <= w < ns.len() implies #[trigger] m[w] <= 2 && c2[w] <= tv[w].len() && (m[w] == 0 ==> c2[w] == 0) by {
        if w == u {
            assert(m[st[top] as int] == 1);
        }
    }
    if ds2.len() > d0.len() {
        assert(ds2.subrange(0, d0.len() as int) =~= ds1.subrange(0, d0.len() as int));
        assert forall|k: int| d0.len() <= k < ds2.len() implies reports_cycle(gs, #[trigger] ds2[k]) by {
            if k < ds1.len() {
                assert(ds2[k] == ds1[k]);
            }
        }
    }
    if ds2.len() == d0.len() {
        assert forall|f: int, k: int| 0 <= f < st.len() && 0 <= k < c2[st[f] as int] && !(f < st.len() - 1 && k == c2[st[f] as int] - 1) && #[trigger] tv[st[f] as int][k] is Some implies m[tv[st[f] as int][k]->0 as int] == 2 by {
            if f < st.len() - 1 {
                assert(st[f] != u);
            } else {
                if k == ix {
                    let t = tv[u][ix]->0 as int;
                    if m[t] == 1 && r1[t] {
                        assert(ds1.len() > d0.len());
                    }
                }
            }
        }
    }
}

/// Following an edge of the top node to a node not yet seen puts it on the
/// path.
proof fn lemma_step_push(
    gs: Seq<GraphUses>,
    ns: Seq<Seq<char>>,
    ov: Seq<Seq<(Seq<char>, Span)>>,
    tv: Seq<Seq<Option<usize>>>,
    m: Seq<u8>,
    c1: Seq<usize>,
    r: Seq<bool>,
    st: Seq<usize>,
    rank: Seq<nat>,
    count: nat,
    d0: Seq<Report>,
    ds: Seq<Report>,
    ix: int,
)
    requires
        walk_ok(gs, ns, ov, tv, m, c1, r, st, rank, count, d0, ds),
        st.len() > 0,
        c1[st.last() as int] == ix,
        0 <= ix < tv[st.last() as int].len(),
        tv[st.last() as int][ix] is Some,
        m[tv[st.last() as int][ix]->0 as int] == 0,
        ix < usize::MAX,
    ensures
        walk_ok(gs, ns, ov, tv, m.update(tv[st.last() as int][ix]->0 as int, 1), c1.update(st.last() as int, (ix + 1) as usize), r,
            st.push(tv[st.last() as int][ix]->0), rank, count, d0, ds),
{
    let u = st.last() as int;
    let c = tv[u][ix]->0;
    let m2 = m.update(c as int, 1);
    let c2 = c1.update(u, (ix + 1) as usize);
    let st2 = st.push(c);
    let top = st.len() - 1;
    assert(st[top] == u);
    assert(c < ns.len());
    assert(m[u] == 1);
    assert(c as int != u);
    assert forall|f: int| 0 <= f < st.len() implies st[f] != c by {
        assert(m[st[f] as int] == 1);
    }
    assert forall|f: int| 0 <= f < st.len() - 1 implies st[f] != u by {
        assert(st[f] != st[top]);
    }
    assert(st2.no_duplicates()) by {
        assert forall|i: int, j: int| 0 <= i < st2.len() && 0 <= j < st2.len() && i != j implies st2[i] != st2[j] by {
            if i < st.len() && j < st.len() {
                assert(st2[i] == st[i] && st2[j] == st[j]);
            } else if i < st.len() {
                assert(st2[i] == st[i]);
            } else if j < st.len() {
                assert(st2[j] == st[j]);
            }
        }
    }
    assert forall|f: int| 0 <= f < st2.len() implies #[trigger] st2[f] < ns.len() && m2[st2[f] as int] == 1 by {
        if f < st.len() {
            assert(st2[f] == st[f]);
        }
    }
    assert forall|w: int| 0 <= w < ns.len() && #[trigger] m2[w] == 1 implies exists|f: int| 0 <= f < st2.len() && st2[f] as int == w by {
        if w == c as int {
            assert(st2[st.len() as int] == c);
        } else {
            assert(m[w] == 1);
            let f = choose|f: int| 0 <= f < st.len() && st[f] as int == w;
            assert(st2[f] == st[f]);
        }
    }
    assert forall|f: int| 0 <= f < st2.len() - 1 implies c2[#[trigger] st2[f] as int] >= 1 && tv[st2[f] as int][c2[st2[f] as int] - 1] == Some(st2[f + 1]) by {
        assert(st2[f] == st[f]);
        if f < st.len() - 1 {
            assert(st[f] != u);
            assert(st2[f + 1] == st[f + 1]);
            assert(c1[st[f] as int] >= 1 && tv[st[f] as int][c1[st[f] as int] - 1] == Some(st[f + 1]));
            assert(c2[st[f] as int] == c1[st[f] as int]);
        } else {
            assert(st2[f + 1] == c);
            assert(st[f] == u);
        }
    }
    assert forall|w: int| 0 <= w < ns.len() implies #[trigger] m2[w] <= 2 && c2[w] <= tv[w].len() && (m2[w] == 0 ==> c2[w] == 0) by {
        assert(m[w] <= 2 && c1[w] <= tv[w].len() && (m[w] == 0 ==> c1[w] == 0));
    }
    if ds.len() == d0.len() {
        assert forall|w: int| 0 <= w < ns.len() && #[trigger] m2[w] == 2 implies rank[w] < count by {
            assert(m[w] == 2);
        }
        assert forall|w: int, k: int| 0 <= w < ns.len() && m2[w] == 2 && 0 <= k < tv[w].len() && #[trigger] tv[w][k] is Some implies m2[tv[w][k]->0 as int] == 2 && rank[tv[w][k]->0 as int] < rank[w] by {
            assert(m[w] == 2);
        }
        assert forall|f: int, k: int| 0 <= f < st2.len() && 0 <= k < c2[st2[f] as int] && !(f < st2.len() - 1 && k == c2[st2[f] as int] - 1) && #[trigger] tv[st2[f] as int][k] is Some implies m2[tv[st2[f] as int][k]->0 as int] == 2 by {
            if f < st.len() {
                assert(st2[f] == st[f]);
                let t = tv[st[f] as int][k]->0 as int;
                if f < st.len() - 1 {
                    assert(st[f] != u);
                }
                assert(m[t] == 2);
            } else {
                assert(st2[f] == c);
                assert(c2[c as int] == c1[c as int]);
            }
        }
    }
}

/// Finishing the top node: every edge of it explored.
proof fn lemma_step_pop(
    gs: Seq<GraphUses>,
    ns: Seq<Seq<char>>,
    ov: Seq<Seq<(Seq<char>, Span)>>,
    tv: Seq<Seq<Option<usize>>>,
    m: Seq<u8>,
    c1: Seq<usize>,
    r: Seq<bool>,
    st: Seq<usize>,
    rank: Seq<nat>,
    count: nat,
    d0: Seq<Report>,
    ds: Seq<Report>,
)
    requires
        walk_ok(gs, ns, ov, tv, m, c1, r, st, rank, count, d0, ds),
        st.len() > 0,
        c1[st.last() as int] >= tv[st.last() as int].len(),
    ensures
        walk_ok(gs, ns, ov, tv, m.update(st.last() as int, 2), c1, r, st.drop_last(), rank.update(st.last() as int, count),
            count + 1, d0, ds),
{
    let u = st.last() as int;
    let m2 = m.update(u, 2);
    let st2 = st.drop_last();
    let rank2 = rank.update(u, count);
    let top = st.len() - 1;
    assert(st[top] == u);
    assert(m[u] == 1);
    assert forall|f: int| 0 <= f < st2.len() implies st2[f] != u by {
        assert(st2[f] == st[f]);
        assert(st[f] != st[top]);
    }
    assert forall|f: int| 0 <= f < st2.len() implies #[trigger] st2[f] < ns.len() && m2[st2[f] as int] == 1 by {
        assert(st2[f] == st[f]);
    }
    assert forall|w: int| 0 <= w < ns.len() && #[trigger] m2[w] == 1 implies exists|f: int| 0 <= f < st2.len() && st2[f] as int == w by {
        assert(w != u);
        assert(m[w] == 1);
        let f = choose|f: int| 0 <= f < st.len() && st[f] as int == w;
        assert(f != top);
        assert(st2[f] == st[f]);
    }
    assert forall|f: int| 0 <= f < st2.len() - 1 implies c1[#[trigger] st2[f] as int] >= 1 && tv[st2[f] as int][c1[st2[f] as int] - 1] == Some(st2[f + 1]) by {
        assert(st2[f] == st[f]);
        assert(st2[f + 1] == st[f + 1]);
    }
    assert(st2.no_duplicates()) by {
        assert forall|i: int, j: int| 0 <= i < st2.len() && 0 <= j < st2.len() && i != j implies st2[i] != st2[j] by {
            assert(st2[i] == st[i] && st2[j] == st[j]);
        }
    }
    if ds.len() == d0.len() {
        assert forall|w: int| 0 <= w < ns.len() && #[trigger] m2[w] == 2 implies rank2[w] < count + 1 by {
            if w != u {
                assert(m[w] == 2);
            }
        }
        assert forall|w: int, k: int| 0 <= w < ns.len() && m2[w] == 2 && 0 <= k < tv[w].len() && #[trigger] tv[w][k] is Some implies m2[tv[w][k]->0 as int] == 2 && rank2[tv[w][k]->0 as int] < rank2[w] by {
            let t = tv[w][k]->0 as int;
            if w == u {
                assert(0 <= top < st.len() && 0 <= k < c1[st[top] as int] && !(top < st.len() - 1));
                assert(m[t] == 2);
                assert(t != u);
            } else {
                assert(m[w] == 2);
                assert(m[t] == 2);
                assert(t != u);
            }
        }
        assert forall|f: int, k: int| 0 <= f < st2.len() && 0 <= k < c1[st2[f] as int] && !(f < st2.len() - 1 && k == c1[st2[f] as int] - 1) && #[trigger] tv[st2[f] as int][k] is Some implies m2[tv[st2[f] as int][k]->0 as int] == 2 by {
            assert(st2[f] == st[f]);
            let t = tv[st[f] as int][k]->0 as int;
            if f == st2.len() - 1 && k == c1[st[f] as int] - 1 {
                assert(tv[st[f] as int][c1[st[f] as int] - 1] == Some(st[f + 1]));
                assert(st[f + 1] == u);
            } else {
                assert(m[t] == 2);
            }
        }
    }
}

/// Walks the hierarchy from `root`, depth first, finishing every node it
/// reaches and reporting each cycle once, against the edge that closes it.
///
/// An explicit stack rather than recursion: the depth is the user's graph
/// nesting, and blowing the compiler's stack on a deep one would be its own
/// bug report. A node is grey while it is on the path and black once all it
/// reaches is explored; an edge to a grey node closes a cycle.
fn walk(
    gs: &Vec<GraphUses>,
    nodes: &Vec<String>,
    outs: &Vec<Vec<(String, Span)>>,
    tg: &Vec<Vec<Option<usize>>>,
    marks: &mut Vec<u8>,
    cursor: &mut Vec<usize>,
    reported: &mut Vec<bool>,
    root: usize,
    Ghost(rank0): Ghost<Seq<nat>>,
    Ghost(count0): Ghost<nat>,
    Ghost(d0): Ghost<Seq<Report>>,
    Ghost(cl0): Ghost<Seq<int>>,
    sink: &mut DiagSink,
) -> (r: (Ghost<Seq<nat>>, Ghost<nat>, Ghost<Seq<int>>))
    requires
        walk_ok(gs@, names(nodes@), outs_view(outs@), tg_view(tg@), old(marks)@, old(cursor)@, old(reported)@, Seq::empty(), rank0,
            count0, d0, saids(old(sink).diags@)),
        closers_ok(gs@, names(nodes@), old(reported)@, cl0, d0, saids(old(sink).diags@)),
        root < nodes@.len(),
        old(marks)@[root as int] == 0,
    ensures
        walk_ok(gs@, names(nodes@), outs_view(outs@), tg_view(tg@), final(marks)@, final(cursor)@, final(reported)@, Seq::empty(),
            r.0@, r.1@, d0, saids(final(sink).diags@)),
        closers_ok(gs@, names(nodes@), final(reported)@, r.2@, d0, saids(final(sink).diags@)),
        *final(sink).map == *old(sink).map,
        final(marks)@[root as int] == 2,
        forall|u: int| 0 <= u < nodes@.len() && #[trigger] old(marks)@[u] == 2 ==> final(marks)@[u] == 2,
{
    let ghost ns = names(nodes@);
    let ghost ov = outs_view(outs@);
    let ghost tv = tg_view(tg@);
    let ghost mut rank = rank0;
    let ghost mut count = count0;
    let ghost mut cl = cl0;
    let ghost m0 = marks@;
    let ghost c_before = cursor@;
    marks.set(root, 1);
    let mut stack: Vec<usize> = Vec::new();
    stack.push(root);
    proof {
        assert(stack@ =~= seq![root]);
        assert forall|u: int| 0 <= u < ns.len() && #[trigger] marks@[u] == 1 implies exists|f: int| 0 <= f < stack@.len() && stack@[f] as int == u by {
            if u != root {
                assert(m0[u] == 1);
            } else {
                assert(stack@[0] == root);
            }
        }
    }
    while stack.len() > 0
        invariant
            walk_ok(gs@, ns, ov, tv, marks@, cursor@, reported@, stack@, rank, count, d0, saids(sink.diags@)),
            closers_ok(gs@, ns, reported@, cl, d0, saids(sink.diags@)),
            ns == names(nodes@),
            ov == outs_view(outs@),
            tv == tg_view(tg@),
            *sink.map == *old(sink).map,
            stack@.len() > 0 ==> stack@[0] == root,
            stack@.len() == 0 ==> marks@[root as int] == 2,
            root < ns.len(),
            forall|u: int| 0 <= u < ns.len() && #[trigger] m0[u] == 2 ==> marks@[u] == 2,
            m0.len() == ns.len(),
        decreases sum(weights(marks@, cursor@, tv)),
    {
        let u = stack[stack.len() - 1];
        let ix = cursor[u];
        let ghost m1 = marks@;
        let ghost c1 = cursor@;
        let ghost s1 = stack@;
        let ghost d1 = saids(sink.diags@);
        proof {
            assert(ov[u as int] == merged(gs@, ns[u as int]));
            assert(outs@[u as int]@.len() == ov[u as int].len());
            assert(tv[u as int].len() == ov[u as int].len());
            assert(tg@[u as int]@ == tv[u as int]);
        }
        if ix < outs[u].len() {
            let t = tg[u][ix];
            let fresh = match t {
                Some(c) => marks[c] == 0,
                None => false,
            };
            if fresh {
                let c = t.unwrap();
                let ghost m2 = marks@;
                cursor.set(u, ix + 1);
                marks.set(c, 1);
                stack.push(c);
                proof {
                    lemma_step_push(gs@, ns, ov, tv, m1, c1, reported@, s1, rank, count, d0, d1, ix as int);
                    lemma_weights_update(m1, c1, m1, cursor@, tv, u as int);
                    lemma_weights_update(m1, cursor@, marks@, cursor@, tv, c as int);
                }
            } else {
                let ghost r1 = reported@;
                match t {
                    Some(c) => {
                        if marks[c] == 1 && !reported[c] {
                            proof {
                                assert forall|v: int| 0 <= v < ns.len() implies #[trigger] cursor@[v] <= tv[v].len() by {
                                    assert(marks@[v] <= 2);
                                }
                            }
                            proof {
                                let f = choose|f: int| 0 <= f < stack@.len() && stack@[f] as int == c as int;
                                assert(stack@.contains(c));
                            }
                            let ghost rb = reported@;
                            let ghost db = saids(sink.diags@);
                            report_cycle(gs, nodes, outs, tg, &*cursor, &stack, ix, c, sink);
                            reported.set(c, true);
                            proof {
                                let da = saids(sink.diags@);
                                assert(!cl.contains(c as int)) by {
                                    if cl.contains(c as int) {
                                        let k = choose|k: int| 0 <= k < cl.len() && cl[k] == c as int;
                                        assert(rb[cl[k]]);
                                    }
                                }
                                let cl2 = cl.push(c as int);
                                assert forall|k: int| 0 <= k < cl2.len() implies 0 <= #[trigger] cl2[k] < ns.len() && cl2[k] < reported@.len()
                                    && reported@[cl2[k]] && reports_cycle_at(gs@, da[d0.len() + k], ns[cl2[k]]) by {
                                    if k < cl.len() {
                                        assert(cl2[k] == cl[k]);
                                        assert(da[d0.len() + k] == db[d0.len() + k]);
                                    }
                                }
                                cl = cl2;
                            }
                        }
                    },
                    None => {},
                }
                cursor.set(u, ix + 1);
                proof {
                    lemma_step_explore(gs@, ns, ov, tv, m1, c1, r1, reported@, s1, rank, count, d0, d1, saids(sink.diags@), ix as int);
                    lemma_weights_update(m1, c1, marks@, cursor@, tv, u as int);
                }
            }
        } else {
            marks.set(u, 2);
            stack.pop();
            proof {
                lemma_step_pop(gs@, ns, ov, tv, m1, c1, reported@, s1, rank, count, d0, d1);
                rank = rank.update(u as int, count);
                count = count + 1;
                lemma_weights_update(m1, c1, marks@, cursor@, tv, u as int);
            }
        }
    }
    (Ghost(rank), Ghost(count), Ghost(cl))
}

/// Reports a graph hierarchy that contains itself.
///
/// Every diagnostic added names a real cycle, as the path from a graph back
/// to itself, at an instance that closes it; and one is added exactly when
/// the hierarchy has a cycle. Each graph that closes a cycle is reported at
/// most once.
pub fn check_graph_cycles(graphs: &Vec<GraphUses>, sink: &mut DiagSink)
    ensures
        *final(sink).map == *old(sink).map,
        saids(final(sink).diags@).len() >= saids(old(sink).diags@).len(),
        saids(final(sink).diags@).subrange(0, saids(old(sink).diags@).len() as int) == saids(old(sink).diags@),
        forall|k: int|
            saids(old(sink).diags@).len() <= k < saids(final(sink).diags@).len() ==> reports_cycle(
                graphs@,
                #[trigger] saids(final(sink).diags@)[k],
            ),
        saids(final(sink).diags@).len() == saids(old(sink).diags@).len() <==> !has_cycle(graphs@),
        exists|cl: Seq<Seq<char>>| #[trigger] closers_named(graphs@, saids(final(sink).diags@), saids(old(sink).diags@).len() as int, cl),
{
    let (nodes, outs, tg) = build_graph(graphs);
    let ghost ns = names(nodes@);
    let ghost ov = outs_view(outs@);
    let ghost tv = tg_view(tg@);
    let ghost d0 = saids(sink.diags@);
    let mut marks: Vec<u8> = Vec::new();
    let mut cursor: Vec<usize> = Vec::new();
    let mut reported: Vec<bool> = Vec::new();
    let mut k: usize = 0;
    while k < nodes.len()
        invariant
            k <= nodes@.len(),
            marks@.len() == k,
            cursor@.len() == k,
            reported@.len() == k,
            forall|u: int| 0 <= u < k ==> #[trigger] marks@[u] == 0 && cursor@[u] == 0,
            forall|u: int| 0 <= u < k ==> !#[trigger] reported@[u],
        decreases nodes@.len() - k,
    {
        marks.push(0);
        cursor.push(0);
        reported.push(false);
        k = k + 1;
    }
    let ghost mut rank: Seq<nat> = Seq::new(ns.len(), |u: int| 0nat);
    let ghost mut count: nat = 0;
    let ghost mut cl: Seq<int> = Seq::empty();
    proof {
        assert(d0.subrange(0, d0.len() as int) =~= d0);
        assert forall|u: int| 0 <= u < ns.len() implies #[trigger] marks@[u] <= 2 && cursor@[u] <= tv[u].len() && (marks@[u] == 0 ==> cursor@[u] == 0) by {
            assert(marks@[u] == 0 && cursor@[u] == 0);
        }
        assert forall|u: int| 0 <= u < ns.len() && #[trigger] reported@[u] implies saids(sink.diags@).len() > d0.len() by {
        }
        assert forall|u: int| 0 <= u < ns.len() && #[trigger] marks@[u] == 1 implies exists|f: int| 0 <= f < Seq::<usize>::empty().len() && Seq::<usize>::empty()[f] as int == u by {
        }
        assert forall|u: int| 0 <= u < ns.len() && #[trigger] marks@[u] == 2 implies rank[u] < count by {
        }
        assert(Seq::<usize>::empty().no_duplicates());
        assert(walk_ok(graphs@, ns, ov, tv, marks@, cursor@, reported@, Seq::empty(), rank, count, d0, saids(sink.diags@)));
    }
    let mut i: usize = 0;
    while i < graphs.len()
        invariant
            i <= graphs@.len(),
            walk_ok(graphs@, ns, ov, tv, marks@, cursor@, reported@, Seq::empty(), rank, count, d0, saids(sink.diags@)),
            closers_ok(graphs@, ns, reported@, cl, d0, saids(sink.diags@)),
            ns == names(nodes@),
            ov == outs_view(outs@),
            tv == tg_view(tg@),
            d0 == saids(old(sink).diags@),
            *sink.map == *old(sink).map,
            forall|w: int, g: int| 0 <= w < ns.len() && 0 <= g < i && #[trigger] ns[w] == #[trigger] graphs@[g].name@ ==> marks@[w] == 2,
        decreases graphs@.len() - i,
    {
        let found = index_of(&nodes, &graphs[i].name);
        proof {
            assert(ns.contains(graphs@[i as int].name@));
        }
        let root = found.unwrap();
        let ghost m1 = marks@;
        if marks[root] == 0 {
            let (Ghost(r2), Ghost(c2), Ghost(cl2)) = walk(graphs, &nodes, &outs, &tg, &mut marks, &mut cursor, &mut reported, root,
                Ghost(rank), Ghost(count), Ghost(d0), Ghost(cl), sink);
            proof {
                rank = r2;
                count = c2;
                cl = cl2;
            }
        }
        proof {
            assert(marks@[root as int] != 1 || exists|f: int| 0 <= f < Seq::<usize>::empty().len() && Seq::<usize>::empty()[f] as int == root as int);
            assert forall|w: int, g: int| 0 <= w < ns.len() && 0 <= g < i + 1 && #[trigger] ns[w] == #[trigger] graphs@[g].name@ implies marks@[w] == 2 by {
                if g < i {
                    assert(m1[w] == 2);
                } else {
                    assert(ns[root as int] == graphs@[i as int].name@);
                    assert(ns.no_duplicates());
                    assert(w == root as int);
                }
            }
        }
        i = i + 1;
    }
    proof {
        assert forall|u: int| 0 <= u < ns.len() implies #[trigger] marks@[u] == 2 by {
            assert(is_graph(graphs@, ns[u]));
            let g = choose|g: int| 0 <= g < graphs@.len() && #[trigger] graphs@[g].name@ == ns[u];
            assert(marks@[u] == 2);
        }
        let ds = saids(sink.diags@);
        // Each report names its own graph.
        let named = cl.map_values(|u: int| ns[u]);
        assert forall|a: int, b: int| 0 <= a < b < named.len() implies named[a] != named[b] by {
            assert(cl[a] != cl[b]);
            assert(0 <= cl[a] < ns.len() && 0 <= cl[b] < ns.len());
        }
        assert forall|k: int| 0 <= k < named.len() implies reports_cycle_at(graphs@, ds[d0.len() + k], #[trigger] named[k]) by {
            assert(0 <= cl[k] < ns.len());
        }
        assert(closers_named(graphs@, ds, d0.len() as int, named));
        if ds.len() == d0.len() {
            lemma_no_cycle(graphs@, ns, ov, tv, marks@, rank);
        } else {
            assert(reports_cycle(graphs@, ds[d0.len() as int]));
            let (p, at) = choose|p: Seq<Seq<char>>, at: Span| #![trigger is_cycle(graphs@, p), instantiates(graphs@, p[p.len() - 2], p.last(), at)]
                is_cycle(graphs@, p) && instantiates(graphs@, p[p.len() - 2], p.last(), at) && ds[d0.len() as int]
                    == error_with_note(at, cycle_msg(p), cycle_note());
            assert(has_cycle(graphs@));
        }
    }
}


/// The instances of a graph body, in order: for each, the module it builds
/// and where that module is named.
pub open spec fn instances_of(body: Seq<GraphStmt>) -> Seq<(Seq<char>, Span)>
    decreases body.len(),
{
    if body.len() == 0 {
        Seq::empty()
    } else {
        let prev = instances_of(body.drop_last());
        match body.last() {
            GraphStmt::Instance { module, span, .. } => prev.push((module@, span)),
            GraphStmt::Pipe { .. } => prev,
        }
    }
}

/// What the cycle check reads of one graph: its name, and the module each of
/// its instances builds. Pipes connect and build nothing, so they are left
/// out.
pub fn graph_uses(decl: &GraphDecl) -> (g: GraphUses)
    ensures
        g.name@ == decl.name@,
        uses_view(g.instances@) == instances_of(decl.body@),
{
    let mut instances: Vec<(String, Span)> = Vec::new();
    let mut k: usize = 0;
    while k < decl.body.len()
        invariant
            k <= decl.body@.len(),
            uses_view(instances@) == instances_of(decl.body@.take(k as int)),
        decreases decl.body@.len() - k,
    {
        proof {
            assert(decl.body@.take(k + 1).drop_last() =~= decl.body@.take(k as int));
            assert(decl.body@.take(k + 1).last() == decl.body@[k as int]);
        }
        match &decl.body[k] {
            GraphStmt::Instance { module, span, .. } => {
                let ghost before = instances@;
                instances.push((module.clone(), *span));
                proof {
                    assert(uses_view(instances@) =~= uses_view(before).push((module@, *span)));
                }
            },
            GraphStmt::Pipe { .. } => {},
        }
        k = k + 1;
    }
    proof {
        assert(decl.body@.take(decl.body@.len() as int) =~= decl.body@);
    }
    GraphUses { name: decl.name.clone(), instances }
}

/// `graph_uses` of each graph, in order.
pub fn all_graph_uses(decls: &Vec<GraphDecl>) -> (gs: Vec<GraphUses>)
    ensures
        gs@.len() == decls@.len(),
        forall|i: int| 0 <= i < gs@.len() ==> (#[trigger] gs@[i]).name@ == decls@[i].name@ && uses_view(
            gs@[i].instances@,
        ) == instances_of(decls@[i].body@),
{
    let mut gs: Vec<GraphUses> = Vec::new();
    let mut k: usize = 0;
    while k < decls.len()
        invariant
            k <= decls@.len(),
            gs@.len() == k,
            forall|i: int| 0 <= i < k ==> (#[trigger] gs@[i]).name@ == decls@[i].name@ && uses_view(
                gs@[i].instances@,
            ) == instances_of(decls@[i].body@),
        decreases decls@.len() - k,
    {
        gs.push(graph_uses(&decls[k]));
        k = k + 1;
    }
    gs
}

} // verus!
