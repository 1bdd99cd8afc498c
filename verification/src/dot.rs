// A design as a picture.
//
// A `graph` is the one declaration whose meaning IS its shape, and the two
// other ways to read one are both indirect: the source lists instances and
// leaves the connections to be matched up by pipe name, and the Verilog lists
// them again with three wires per pipe in between. Graphviz because it is
// text: it goes in a commit, diffs when the design changes, and needs no tool
// to be useful.

use vstd::prelude::*;
use crate::ir::{Module, Port, PortDir, Instance};
use crate::text::push_char;
use crate::ir_export::{names, lemma_names_push};

verus! {

/// `s` ends in `suf`.
pub open spec fn ends_with(s: Seq<char>, suf: Seq<char>) -> bool {
    s.len() >= suf.len() && s.skip(s.len() - suf.len()) == suf
}

/// What comes before `_valid`, if `s` ends in it.
pub open spec fn pipe_of(s: Seq<char>) -> Option<Seq<char>> {
    if ends_with(s, "_valid"@) {
        Some(s.take(s.len() - 6))
    } else {
        None
    }
}

/// The graph's own pipes, by name and direction: the ports named
/// `<pipe>_valid`, whose direction says which way the pipe goes.
pub open spec fn boundary(ps: Seq<Port>) -> Seq<(Seq<char>, PortDir)>
    decreases ps.len(),
{
    if ps.len() == 0 {
        Seq::empty()
    } else {
        let prev = boundary(ps.drop_last());
        match pipe_of(ps.last().name@) {
            Some(b) => prev.push((b, ps.last().dir)),
            None => prev,
        }
    }
}

/// The pipes one instance's connections reach, each with whether the
/// instance drives it.
pub open spec fn inst_ends(conns: Seq<(String, String)>, produces: Seq<Seq<char>>) -> Seq<(Seq<char>, bool)>
    decreases conns.len(),
{
    if conns.len() == 0 {
        Seq::empty()
    } else {
        let prev = inst_ends(conns.drop_last(), produces);
        match pipe_of(conns.last().1@) {
            Some(p) => prev.push((p, produces.contains(p))),
            None => prev,
        }
    }
}

/// Every end of every pipe: `(pipe, node, drives)`, instances first in
/// order, then the graph's own pipes, whose boundary node stands for the end
/// outside the graph.
pub open spec fn ends_of(is: Seq<Instance>) -> Seq<(Seq<char>, Seq<char>, bool)>
    decreases is.len(),
{
    if is.len() == 0 {
        Seq::empty()
    } else {
        let i = is.last();
        ends_of(is.drop_last()) + inst_ends(i.conns@, names(i.produces@)).map_values(
            |e: (Seq<char>, bool)| (e.0, i.name@, e.1),
        )
    }
}

pub open spec fn boundary_ends(bs: Seq<(Seq<char>, PortDir)>) -> Seq<(Seq<char>, Seq<char>, bool)> {
    bs.map_values(|b: (Seq<char>, PortDir)| (b.0, b.0, b.1 == PortDir::In))
}

/// The producers, `(pipe, node)`, in the order the ends are found.
pub open spec fn side(ends: Seq<(Seq<char>, Seq<char>, bool)>, drives: bool) -> Seq<(Seq<char>, Seq<char>)>
    decreases ends.len(),
{
    if ends.len() == 0 {
        Seq::empty()
    } else {
        let prev = side(ends.drop_last(), drives);
        if ends.last().2 == drives {
            prev.push((ends.last().0, ends.last().1))
        } else {
            prev
        }
    }
}

/// The edges from one producer to every consumer of its pipe.
pub open spec fn edges_from(p: (Seq<char>, Seq<char>), cs: Seq<(Seq<char>, Seq<char>)>) -> Seq<(Seq<char>, Seq<char>, Seq<char>)>
    decreases cs.len(),
{
    if cs.len() == 0 {
        Seq::empty()
    } else {
        let prev = edges_from(p, cs.drop_last());
        if cs.last().0 == p.0 {
            prev.push((p.1, cs.last().1, p.0))
        } else {
            prev
        }
    }
}

/// One edge per pipe and pair of ends, `(from, to, pipe)`: every producer
/// in order, each with every consumer in order.
pub open spec fn edges(ps: Seq<(Seq<char>, Seq<char>)>, cs: Seq<(Seq<char>, Seq<char>)>) -> Seq<(Seq<char>, Seq<char>, Seq<char>)>
    decreases ps.len(),
{
    if ps.len() == 0 {
        Seq::empty()
    } else {
        edges(ps.drop_last(), cs) + edges_from(ps.last(), cs)
    }
}

pub open spec fn all_ends(m: Module) -> Seq<(Seq<char>, Seq<char>, bool)> {
    ends_of(m.instances@) + boundary_ends(boundary(m.ports@))
}

pub open spec fn graph_edges(m: Module) -> Seq<(Seq<char>, Seq<char>, Seq<char>)> {
    edges(side(all_ends(m), true), side(all_ends(m), false))
}

/// A name with everything but ASCII letters and digits made `_`.
pub open spec fn sanitized(s: Seq<char>) -> Seq<char>
    decreases s.len(),
{
    if s.len() == 0 {
        Seq::empty()
    } else {
        let c = s.last();
        sanitized(s.drop_last()).push(if ('a' <= c <= 'z') || ('A' <= c <= 'Z') || ('0' <= c <= '9') { c } else { '_' })
    }
}

/// `"<graph>__<node>"`.
pub open spec fn node(g: Seq<char>, n: Seq<char>) -> Seq<char> {
    "\""@ + g + "__"@ + n + "\""@
}

/// A pipe of the graph's own, as a house pointing the way it flows.
pub open spec fn boundary_line(g: Seq<char>, b: (Seq<char>, PortDir)) -> Seq<char> {
    "    "@ + node(g, b.0) + " [shape="@ + (if b.1 == PortDir::In { "invhouse"@ } else { "house"@ }) + ", label=\""@ + b.0
        + "\"];\n"@
}

pub open spec fn boundary_lines(g: Seq<char>, bs: Seq<(Seq<char>, PortDir)>) -> Seq<char>
    decreases bs.len(),
{
    if bs.len() == 0 {
        Seq::empty()
    } else {
        boundary_lines(g, bs.drop_last()) + boundary_line(g, bs.last())
    }
}

/// An instance, as a box with its name over its module's.
pub open spec fn inst_line(g: Seq<char>, i: Instance) -> Seq<char> {
    "    "@ + node(g, i.name@) + " [shape=box, label=\""@ + i.name@ + "\\n"@ + i.module@ + "\"];\n"@
}

pub open spec fn inst_nodes(g: Seq<char>, is: Seq<Instance>) -> Seq<char>
    decreases is.len(),
{
    if is.len() == 0 {
        Seq::empty()
    } else {
        inst_nodes(g, is.drop_last()) + inst_line(g, is.last())
    }
}

/// An edge, labelled with its pipe.
pub open spec fn edge_line(g: Seq<char>, e: (Seq<char>, Seq<char>, Seq<char>)) -> Seq<char> {
    "    "@ + node(g, e.0) + " -> "@ + node(g, e.1) + " [label=\""@ + e.2 + "\"];\n"@
}

pub open spec fn edge_lines(g: Seq<char>, es: Seq<(Seq<char>, Seq<char>, Seq<char>)>) -> Seq<char>
    decreases es.len(),
{
    if es.len() == 0 {
        Seq::empty()
    } else {
        edge_lines(g, es.drop_last()) + edge_line(g, es.last())
    }
}

/// One graph as a cluster: its own pipes as boundary nodes, its instances
/// as boxes, one edge per pipe.
pub open spec fn graph_text(m: Module) -> Seq<char> {
    "\n  subgraph cluster_"@ + sanitized(m.name@) + " {\n"@ + "    label=\"graph "@ + m.name@ + "\";\n"@
        + "    style=rounded;\n"@ + "    color=gray50;\n"@ + boundary_lines(m.name@, boundary(m.ports@))
        + inst_nodes(m.name@, m.instances@) + edge_lines(m.name@, graph_edges(m)) + "  }\n"@
}

/// The clusters of the modules that have instances, in order.
pub open spec fn graphs_text(ms: Seq<Module>) -> Seq<char>
    decreases ms.len(),
{
    if ms.len() == 0 {
        Seq::empty()
    } else {
        graphs_text(ms.drop_last()) + (if ms.last().instances@.len() > 0 { graph_text(ms.last()) } else { Seq::empty() })
    }
}

/// How many modules have instances.
pub open spec fn drawn(ms: Seq<Module>) -> nat
    decreases ms.len(),
{
    if ms.len() == 0 {
        0
    } else {
        drawn(ms.drop_last()) + (if ms.last().instances@.len() > 0 { 1nat } else { 0nat })
    }
}

/// Every graph in the program as one directed graph; a note when there is
/// none, because an empty picture looks exactly like a broken tool.
pub open spec fn dot_text(ms: Seq<Module>) -> Seq<char> {
    "digraph ddl {\n"@ + "  rankdir=LR;\n"@ + "  node [fontname=\"monospace\"];\n"@
        + "  edge [fontname=\"monospace\", fontsize=10];\n"@ + graphs_text(ms) + (if drawn(ms) == 0 {
        "  empty [shape=none, label=\"no `graph` declarations\"];\n"@
    } else {
        Seq::empty()
    }) + "}\n"@
}

/// Only the modules that have instances.
pub open spec fn with_instances(ms: Seq<Module>) -> Seq<Module> {
    ms.filter(|m: Module| m.instances@.len() > 0)
}

proof fn lemma_drawn_parts(ms: Seq<Module>)
    ensures
        graphs_text(with_instances(ms)) == graphs_text(ms),
        drawn(with_instances(ms)) == drawn(ms),
    decreases ms.len(),
{
    reveal(Seq::filter);
    if ms.len() > 0 {
        lemma_drawn_parts(ms.drop_last());
        let f = with_instances(ms);
        let g = with_instances(ms.drop_last());
        if ms.last().instances@.len() > 0 {
            assert(f == g.push(ms.last()));
            assert(f.drop_last() =~= g);
        } else {
            assert(f == g);
        }
    }
}

/// Modules without instances leave the picture as it is: rendering a list of
/// modules gives what rendering only those with instances gives.
pub proof fn law_render_skips_bare_modules(ms: Seq<Module>)
    ensures
        dot_text(with_instances(ms)) == dot_text(ms),
{
    lemma_drawn_parts(ms);
}

/// A list with no module that has instances renders as the empty picture:
/// the header, the note that there is no graph, and the closing brace.
pub proof fn law_render_nothing_drawn(ms: Seq<Module>)
    requires
        forall|i: int| 0 <= i < ms.len() ==> (#[trigger] ms[i]).instances@.len() == 0,
    ensures
        dot_text(ms) == dot_text(Seq::empty()),
        dot_text(ms) == "digraph ddl {\n"@ + "  rankdir=LR;\n"@ + "  node [fontname=\"monospace\"];\n"@
            + "  edge [fontname=\"monospace\", fontsize=10];\n"@
            + "  empty [shape=none, label=\"no `graph` declarations\"];\n"@ + "}\n"@,
{
    lemma_none_drawn(ms);
    assert(graphs_text(Seq::<Module>::empty()) == Seq::<char>::empty());
    assert(dot_text(ms) =~= dot_text(Seq::empty()));
}

proof fn lemma_none_drawn(ms: Seq<Module>)
    requires
        forall|i: int| 0 <= i < ms.len() ==> (#[trigger] ms[i]).instances@.len() == 0,
    ensures
        graphs_text(ms) == Seq::<char>::empty(),
        drawn(ms) == 0,
    decreases ms.len(),
{
    if ms.len() > 0 {
        assert forall|i: int| 0 <= i < ms.drop_last().len() implies (#[trigger] ms.drop_last()[i]).instances@.len() == 0 by {
            assert(ms.drop_last()[i] == ms[i]);
        }
        lemma_none_drawn(ms.drop_last());
        assert(ms.last() == ms[ms.len() - 1]);
        assert(graphs_text(ms) =~= graphs_text(ms.drop_last()));
    }
}

/// What comes before `_valid`, if `s` ends in it.
fn strip_valid(s: &String) -> (r: Option<String>)
    ensures
        match pipe_of(s@) {
            Some(b) => r is Some && r->0@ == b,
            None => r is None,
        },
{
    proof {
        reveal_strlit("_valid");
    }
    let n = s.as_str().unicode_len();
    if n < 6 {
        return None;
    }
    let tail = String::from_str(s.as_str().substring_char(n - 6, n));
    if tail == String::from_str("_valid") {
        proof {
            assert(s@.skip(s@.len() - 6) =~= s@.subrange(n - 6, n as int));
        }
        Some(String::from_str(s.as_str().substring_char(0, n - 6)))
    } else {
        proof {
            assert(s@.skip(s@.len() - 6) =~= s@.subrange(n - 6, n as int));
        }
        None
    }
}

fn is_alnum(c: char) -> (r: bool)
    ensures
        r == (('a' <= c <= 'z') || ('A' <= c <= 'Z') || ('0' <= c <= '9')),
{
    ('a' <= c && c <= 'z') || ('A' <= c && c <= 'Z') || ('0' <= c && c <= '9')
}

/// A name fit for a cluster identifier.
fn sanitize(name: &str) -> (r: String)
    ensures
        r@ == sanitized(name@),
{
    let mut r = String::new();
    for c in it: name.chars()
        invariant
            it.seq() == name@,
            r@ == sanitized(name@.take(it.index() as int)),
    {
        proof {
            assert(name@.take(it.index() + 1).drop_last() =~= name@.take(it.index() as int));
            assert(name@.take(it.index() + 1).last() == c);
        }
        push_char(&mut r, if is_alnum(c) { c } else { '_' });
    }
    proof {
        assert(name@.take(name@.len() as int) =~= name@);
    }
    r
}

pub open spec fn pairs_view(v: Seq<(String, PortDir)>) -> Seq<(Seq<char>, PortDir)> {
    v.map_values(|x: (String, PortDir)| (x.0@, x.1))
}

/// The graph's parameters, by pipe name and direction.
fn boundary_pipes(m: &Module) -> (r: Vec<(String, PortDir)>)
    ensures
        pairs_view(r@) == boundary(m.ports@),
{
    let mut r: Vec<(String, PortDir)> = Vec::new();
    let mut i: usize = 0;
    while i < m.ports.len()
        invariant
            i <= m.ports@.len(),
            pairs_view(r@) == boundary(m.ports@.take(i as int)),
        decreases m.ports@.len() - i,
    {
        proof {
            assert(m.ports@.take(i + 1).drop_last() =~= m.ports@.take(i as int));
        }
        match strip_valid(&m.ports[i].name) {
            Some(base) => {
                let ghost before = r@;
                r.push((base, m.ports[i].dir));
                proof {
                    assert(pairs_view(r@) =~= pairs_view(before).push((r@.last().0@, r@.last().1)));
                }
            },
            None => {},
        }
        i = i + 1;
    }
    proof {
        assert(m.ports@.take(i as int) =~= m.ports@);
    }
    r
}

/// One end of a pipe.
pub struct End {
    pub pipe: String,
    pub node: String,
    pub drives: bool,
}

pub open spec fn ends_view(v: Seq<End>) -> Seq<(Seq<char>, Seq<char>, bool)> {
    v.map_values(|e: End| (e.pipe@, e.node@, e.drives))
}

proof fn lemma_ends_view_push(v: Seq<End>, e: End)
    ensures
        ends_view(v.push(e)) == ends_view(v).push((e.pipe@, e.node@, e.drives)),
{
    assert(ends_view(v.push(e)) =~= ends_view(v).push((e.pipe@, e.node@, e.drives)));
}

/// Every end of every pipe in a graph; see `all_ends`.
fn collect_ends(m: &Module) -> (r: Vec<End>)
    ensures
        ends_view(r@) == all_ends(*m),
{
    let mut r: Vec<End> = Vec::new();
    let mut i: usize = 0;
    while i < m.instances.len()
        invariant
            i <= m.instances@.len(),
            ends_view(r@) == ends_of(m.instances@.take(i as int)),
        decreases m.instances@.len() - i,
    {
        let inst = &m.instances[i];
        let ghost base = ends_view(r@);
        let ghost f = |e: (Seq<char>, bool)| (e.0, inst.name@, e.1);
        let mut j: usize = 0;
        while j < inst.conns.len()
            invariant
                j <= inst.conns@.len(),
                ends_view(r@) == base + inst_ends(inst.conns@.take(j as int), names(inst.produces@)).map_values(f),
                f == (|e: (Seq<char>, bool)| (e.0, inst.name@, e.1)),
            decreases inst.conns@.len() - j,
        {
            proof {
                assert(inst.conns@.take(j + 1).drop_last() =~= inst.conns@.take(j as int));
            }
            match strip_valid(&inst.conns[j].1) {
                Some(pipe) => {
                    let drives = holds_text(&inst.produces, &pipe);
                    let ghost before = r@;
                    let ghost pv = pipe@;
                    r.push(End { pipe, node: inst.name.clone(), drives });
                    proof {
                        lemma_ends_view_push(before, r@.last());
                        let old_part = inst_ends(inst.conns@.take(j as int), names(inst.produces@));
                        assert(inst_ends(inst.conns@.take(j + 1), names(inst.produces@)) == old_part.push((pv, drives)));
                        assert(old_part.push((pv, drives)).map_values(f) =~= old_part.map_values(f).push(f((pv, drives))));
                    }
                },
                None => {},
            }
            j = j + 1;
        }
        proof {
            assert(inst.conns@.take(j as int) =~= inst.conns@);
            assert(m.instances@.take(i + 1).drop_last() =~= m.instances@.take(i as int));
            assert(m.instances@.take(i + 1).last() == *inst);
        }
        i = i + 1;
    }
    proof {
        assert(m.instances@.take(i as int) =~= m.instances@);
    }
    let bs = boundary_pipes(m);
    let ghost base = ends_view(r@);
    let mut k: usize = 0;
    while k < bs.len()
        invariant
            k <= bs@.len(),
            ends_view(r@) == base + boundary_ends(pairs_view(bs@).take(k as int)),
        decreases bs@.len() - k,
    {
        let ghost before = r@;
        r.push(End { pipe: bs[k].0.clone(), node: bs[k].0.clone(), drives: bs[k].1 == PortDir::In });
        proof {
            lemma_ends_view_push(before, r@.last());
            assert(boundary_ends(pairs_view(bs@).take(k + 1)) =~= boundary_ends(pairs_view(bs@).take(k as int)).push(
                (bs@[k as int].0@, bs@[k as int].0@, bs@[k as int].1 == PortDir::In)));
        }
        k = k + 1;
    }
    proof {
        assert(pairs_view(bs@).take(k as int) =~= pairs_view(bs@));
    }
    r
}

/// Whether `v` holds a string with the text of `x`.
fn holds_text(v: &Vec<String>, x: &String) -> (r: bool)
    ensures
        r == names(v@).contains(x@),
{
    let mut i: usize = 0;
    while i < v.len()
        invariant
            i <= v@.len(),
            forall|j: int| 0 <= j < i ==> v@[j]@ != x@,
        decreases v@.len() - i,
    {
        if v[i] == *x {
            proof {
                assert(names(v@)[i as int] == x@);
            }
            return true;
        }
        i = i + 1;
    }
    proof {
        if names(v@).contains(x@) {
            let j = choose|j: int| 0 <= j < v@.len() && names(v@)[j] == x@;
            assert(v@[j]@ == x@);
        }
    }
    false
}

/// One edge of the picture.
pub struct Edge {
    pub from: String,
    pub to: String,
    pub pipe: String,
}

pub open spec fn edges_view(v: Seq<Edge>) -> Seq<(Seq<char>, Seq<char>, Seq<char>)> {
    v.map_values(|e: Edge| (e.from@, e.to@, e.pipe@))
}

/// One edge per pipe, from whatever drives it to whatever reads it.
///
/// The direction comes from the instance's own record of the pipes it
/// drives, and a pipe that is a parameter of the graph has one end outside
/// it, for which the boundary node stands.
fn graph_edges_of(m: &Module) -> (r: Vec<Edge>)
    ensures
        edges_view(r@) == graph_edges(*m),
{
    let ends = collect_ends(m);
    let ghost ev = ends_view(ends@);
    // The producers and consumers, each as indices into `ends`.
    let mut r: Vec<Edge> = Vec::new();
    let mut i: usize = 0;
    proof {
        assert(ev.take(0) =~= Seq::<(Seq<char>, Seq<char>, bool)>::empty());
    }
    while i < ends.len()
        invariant
            i <= ends@.len(),
            ev == ends_view(ends@),
            ev == all_ends(*m),
            edges_view(r@) == edges(side(ev.take(i as int), true), side(ev, false)),
        decreases ends@.len() - i,
    {
        proof {
            assert(ev.take(i + 1).drop_last() =~= ev.take(i as int));
            assert(ev.take(i + 1).last() == ev[i as int]);
        }
        let ghost ps0 = side(ev.take(i as int), true);
        let ghost cs = side(ev, false);
        proof {
            if ev[i as int].2 {
                let p = (ev[i as int].0, ev[i as int].1);
                assert(side(ev.take(i + 1), true) == ps0.push(p));
                assert(ps0.push(p).drop_last() =~= ps0);
                assert(edges(ps0.push(p), cs) == edges(ps0, cs) + edges_from(p, cs));
            } else {
                assert(side(ev.take(i + 1), true) == ps0);
            }
        }
        if ends[i].drives {
            let ghost pv = (ends@[i as int].pipe@, ends@[i as int].node@);
            let ghost base = edges_view(r@);
            let mut j: usize = 0;
            proof {
                assert(ev.take(0) =~= Seq::<(Seq<char>, Seq<char>, bool)>::empty());
            }
            while j < ends.len()
                invariant
                    j <= ends@.len(),
                    i < ends@.len(),
                    ev == ends_view(ends@),
                    pv == (ends@[i as int].pipe@, ends@[i as int].node@),
                    edges_view(r@) == base + edges_from(pv, side(ev.take(j as int), false)),
                decreases ends@.len() - j,
            {
                proof {
                    assert(ev.take(j + 1).drop_last() =~= ev.take(j as int));
                    assert(ev.take(j + 1).last() == ev[j as int]);
                }
                let ghost cs0 = side(ev.take(j as int), false);
                let ghost cj = (ev[j as int].0, ev[j as int].1);
                proof {
                    if !ev[j as int].2 {
                        assert(side(ev.take(j + 1), false) == cs0.push(cj));
                        assert(cs0.push(cj).drop_last() =~= cs0);
                        assert(edges_from(pv, cs0.push(cj)) == if cj.0 == pv.0 {
                            edges_from(pv, cs0).push((pv.1, cj.1, pv.0))
                        } else {
                            edges_from(pv, cs0)
                        });
                    } else {
                        assert(side(ev.take(j + 1), false) == cs0);
                    }
                }
                if !ends[j].drives && ends[j].pipe == ends[i].pipe {
                    let ghost before = r@;
                    r.push(Edge { from: ends[i].node.clone(), to: ends[j].node.clone(), pipe: ends[i].pipe.clone() });
                    proof {
                        assert(edges_view(r@) =~= edges_view(before).push((r@.last().from@, r@.last().to@, r@.last().pipe@)));
                        assert(edges_view(r@) =~= base + edges_from(pv, cs0).push((pv.1, cj.1, pv.0)));
                    }
                }
                j = j + 1;
            }
            proof {
                assert(ev.take(j as int) =~= ev);
            }
        }
        i = i + 1;
    }
    proof {
        assert(ev.take(i as int) =~= ev);
    }
    r
}

fn push_node(out: &mut String, g: &str, n: &str)
    ensures
        final(out)@ == old(out)@ + node(g@, n@),
{
    out.append("\"");
    out.append(g);
    out.append("__");
    out.append(n);
    out.append("\"");
    proof {
        assert(out@ =~= old(out)@ + node(g@, n@));
    }
}

fn push_boundary_line(out: &mut String, g: &str, pipe: &str, dir: PortDir)
    ensures
        final(out)@ == old(out)@ + boundary_line(g@, (pipe@, dir)),
{
    out.append("    ");
    push_node(out, g, pipe);
    out.append(" [shape=");
    out.append(if dir == PortDir::In { "invhouse" } else { "house" });
    out.append(", label=\"");
    out.append(pipe);
    out.append("\"];\n");
    proof {
        assert(out@ =~= old(out)@ + boundary_line(g@, (pipe@, dir)));
    }
}

fn push_inst_line(out: &mut String, g: &str, i: &Instance)
    ensures
        final(out)@ == old(out)@ + inst_line(g@, *i),
{
    out.append("    ");
    push_node(out, g, i.name.as_str());
    out.append(" [shape=box, label=\"");
    out.append(i.name.as_str());
    out.append("\\n");
    out.append(i.module.as_str());
    out.append("\"];\n");
    proof {
        assert(out@ =~= old(out)@ + inst_line(g@, *i));
    }
}

fn push_edge_line(out: &mut String, g: &str, e: &Edge)
    ensures
        final(out)@ == old(out)@ + edge_line(g@, (e.from@, e.to@, e.pipe@)),
{
    out.append("    ");
    push_node(out, g, e.from.as_str());
    out.append(" -> ");
    push_node(out, g, e.to.as_str());
    out.append(" [label=\"");
    out.append(e.pipe.as_str());
    out.append("\"];\n");
    proof {
        assert(out@ =~= old(out)@ + edge_line(g@, (e.from@, e.to@, e.pipe@)));
    }
}

fn render_graph(out: &mut String, m: &Module)
    ensures
        final(out)@ == old(out)@ + graph_text(*m),
{
    out.append("\n  subgraph cluster_");
    out.append(sanitize(m.name.as_str()).as_str());
    out.append(" {\n");
    out.append("    label=\"graph ");
    out.append(m.name.as_str());
    out.append("\";\n");
    out.append("    style=rounded;\n");
    out.append("    color=gray50;\n");
    // The graph's own pipes, as the boundary: where the design meets
    // whatever is outside it.
    let bs = boundary_pipes(m);
    let ghost b0 = out@;
    let mut k: usize = 0;
    while k < bs.len()
        invariant
            k <= bs@.len(),
            out@ == b0 + boundary_lines(m.name@, pairs_view(bs@).take(k as int)),
        decreases bs@.len() - k,
    {
        proof {
            assert(pairs_view(bs@).take(k + 1).drop_last() =~= pairs_view(bs@).take(k as int));
            assert(pairs_view(bs@).take(k + 1).last() == (bs@[k as int].0@, bs@[k as int].1));
        }
        push_boundary_line(out, m.name.as_str(), bs[k].0.as_str(), bs[k].1);
        k = k + 1;
    }
    proof {
        assert(pairs_view(bs@).take(k as int) =~= pairs_view(bs@));
    }
    let ghost b1 = out@;
    let mut i: usize = 0;
    while i < m.instances.len()
        invariant
            i <= m.instances@.len(),
            out@ == b1 + inst_nodes(m.name@, m.instances@.take(i as int)),
        decreases m.instances@.len() - i,
    {
        proof {
            assert(m.instances@.take(i + 1).drop_last() =~= m.instances@.take(i as int));
        }
        push_inst_line(out, m.name.as_str(), &m.instances[i]);
        i = i + 1;
    }
    proof {
        assert(m.instances@.take(i as int) =~= m.instances@);
    }
    // One edge per pipe, not one per wire.
    let es = graph_edges_of(m);
    let ghost b2 = out@;
    let mut e: usize = 0;
    while e < es.len()
        invariant
            e <= es@.len(),
            out@ == b2 + edge_lines(m.name@, edges_view(es@).take(e as int)),
        decreases es@.len() - e,
    {
        proof {
            assert(edges_view(es@).take(e + 1).drop_last() =~= edges_view(es@).take(e as int));
            assert(edges_view(es@).take(e + 1).last() == (es@[e as int].from@, es@[e as int].to@, es@[e as int].pipe@));
        }
        push_edge_line(out, m.name.as_str(), &es[e]);
        e = e + 1;
    }
    proof {
        assert(edges_view(es@).take(e as int) =~= edges_view(es@));
    }
    out.append("  }\n");
}

/// Renders every graph in the program as one directed graph; see
/// `dot_text`. Modules with no instances are skipped rather than drawn as
/// lone boxes: a `fun` or a `process` has no structure to show.
pub fn render(modules: &Vec<Module>) -> (out: String)
    ensures
        out@ == dot_text(modules@),
{
    let mut out = String::from_str("digraph ddl {\n");
    out.append("  rankdir=LR;\n");
    out.append("  node [fontname=\"monospace\"];\n");
    out.append("  edge [fontname=\"monospace\", fontsize=10];\n");
    let ghost b = out@;
    let mut any = false;
    let mut i: usize = 0;
    while i < modules.len()
        invariant
            i <= modules@.len(),
            out@ == b + graphs_text(modules@.take(i as int)),
            any <==> drawn(modules@.take(i as int)) > 0,
        decreases modules@.len() - i,
    {
        proof {
            assert(modules@.take(i + 1).drop_last() =~= modules@.take(i as int));
        }
        if modules[i].instances.len() > 0 {
            render_graph(&mut out, &modules[i]);
            any = true;
        }
        i = i + 1;
    }
    proof {
        assert(modules@.take(i as int) =~= modules@);
    }
    if !any {
        out.append("  empty [shape=none, label=\"no `graph` declarations\"];\n");
    }
    out.append("}\n");
    out
}

} // verus!
