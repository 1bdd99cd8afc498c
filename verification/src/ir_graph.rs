// What a `graph` can see of the declarations it instantiates, and what it
// asks to have built for it.
//
// A graph computes nothing: its module has wires and instances and no
// values. What it needs of each declaration it instantiates is the
// connectable interface -- the pipes and wires, in the order declared,
// because a graph passes arguments positionally and the two kinds interleave.

use vstd::prelude::*;
use crate::ty::{Ty, ty_text, width};
use crate::ir_comb::Comb;
use crate::diag::{Span, DiagSink, Severity, saids, error_with_note};
use crate::ir::{Port, PortDir};
use crate::ir_fsm::{error_from, extends, fail};
use crate::lowerer::{bool_type, pipe_ports, salt, suffixed};
use crate::syntax::{GraphArg, Qualifier};
use crate::text::{dec, push_decimal_wide};

verus! {

/// One pipe parameter of something a graph can instantiate.
#[derive(Debug)]
pub struct PipeSig {
    pub name: String,
    pub is_input: bool,
    pub ty: Ty,
}

impl Clone for PipeSig {
    fn clone(&self) -> (r: Self)
        ensures
            r == *self,
    {
        PipeSig { name: self.name.clone(), is_input: self.is_input, ty: self.ty.clone() }
    }
}

/// One `wire` parameter -- a bare signal of the declared width, carrying no
/// handshake at all. Only an `extern` and a `graph` have these: the two
/// declarations that compute nothing, which is the whole reason a wire is
/// safe there.
#[derive(Debug)]
pub struct WireSig {
    pub name: String,
    pub is_input: bool,
    pub ty: Ty,
}

impl Clone for WireSig {
    fn clone(&self) -> (r: Self)
        ensures
            r == *self,
    {
        WireSig { name: self.name.clone(), is_input: self.is_input, ty: self.ty.clone() }
    }
}

/// One parameter, in the position it was declared in.
#[derive(Debug)]
pub enum ArgSig {
    Pipe(PipeSig),
    Wire(WireSig),
}

impl Clone for ArgSig {
    fn clone(&self) -> (r: Self)
        ensures
            r == *self,
    {
        match self {
            ArgSig::Pipe(p) => ArgSig::Pipe(p.clone()),
            ArgSig::Wire(w) => ArgSig::Wire(w.clone()),
        }
    }
}

/// `in` or `out`.
pub open spec fn dir_word(is_input: bool) -> Seq<char> {
    if is_input {
        "in"@
    } else {
        "out"@
    }
}

/// How a parameter reads back in a diagnostic, in source spelling.
pub open spec fn arg_text(a: ArgSig) -> Seq<char> {
    match a {
        ArgSig::Pipe(p) => p.name@ + ": buffer "@ + dir_word(p.is_input) + " "@ + ty_text(p.ty),
        ArgSig::Wire(w) => w.name@ + ": wire "@ + dir_word(w.is_input) + " "@ + ty_text(w.ty),
    }
}

pub open spec fn arg_name(a: ArgSig) -> Seq<char> {
    match a {
        ArgSig::Pipe(p) => p.name@,
        ArgSig::Wire(w) => w.name@,
    }
}

impl ArgSig {
    pub fn name(&self) -> (r: &str)
        ensures
            r@ == arg_name(*self),
    {
        match self {
            ArgSig::Pipe(p) => p.name.as_str(),
            ArgSig::Wire(w) => w.name.as_str(),
        }
    }

    /// How the parameter reads back in a diagnostic, in source spelling:
    /// `a: buffer in i8`, `pin: wire out i1`.
    pub fn display(&self) -> (s: String)
        ensures
            s@ == arg_text(*self),
    {
        let (name, word, is_input, ty) = match self {
            ArgSig::Pipe(p) => (&p.name, ": buffer ", p.is_input, &p.ty),
            ArgSig::Wire(w) => (&w.name, ": wire ", w.is_input, &w.ty),
        };
        let mut s = name.clone();
        s.append(word);
        s.append(if is_input { "in" } else { "out" });
        s.append(" ");
        s.append(ty.display().as_str());
        s
    }
}

/// The connectable interface of a declaration, which is all a graph can see
/// of it. Constant parameters are folded inside the callee and are not ports.
#[derive(Debug)]
pub struct BlockSig {
    pub name: String,
    pub kind: &'static str,
    pub args: Vec<ArgSig>,
}

/// The pipe parameters among `args`, in order.
pub open spec fn pipes_of(args: Seq<ArgSig>) -> Seq<PipeSig>
    decreases args.len(),
{
    if args.len() == 0 {
        Seq::empty()
    } else {
        let prev = pipes_of(args.drop_last());
        match args.last() {
            ArgSig::Pipe(p) => prev.push(p),
            ArgSig::Wire(_) => prev,
        }
    }
}

impl BlockSig {
    /// The pipe parameters alone, for the callers that only ever had those.
    pub fn pipes(&self) -> (r: Vec<PipeSig>)
        ensures
            r@ == pipes_of(self.args@),
    {
        let mut r: Vec<PipeSig> = Vec::new();
        let mut i: usize = 0;
        while i < self.args.len()
            invariant
                i <= self.args@.len(),
                r@ == pipes_of(self.args@.take(i as int)),
            decreases self.args@.len() - i,
        {
            proof {
                assert(self.args@.take(i + 1).drop_last() =~= self.args@.take(i as int));
            }
            match &self.args[i] {
                ArgSig::Pipe(p) => r.push(p.clone()),
                ArgSig::Wire(_) => {},
            }
            i = i + 1;
        }
        proof {
            assert(self.args@.take(i as int) =~= self.args@);
        }
        r
    }
}

/// One combinator a graph asked for: which, how wide, and carrying what.
///
/// Collected rather than emitted where it is asked for, because two graphs
/// asking for the same shape want one module instantiated twice.
#[derive(Debug)]
pub struct CombUse {
    pub kind: Comb,
    pub fan: usize,
    pub ty: Ty,
}

impl CombUse {
    /// Whether two uses are one module: the same combinator, fan and WIDTH.
    /// A combinator routes its payload and never looks inside it, so a
    /// `u16` and a two-`u8` struct are the same shape.
    pub fn same_shape(&self, other: &CombUse) -> (r: bool)
        requires
            width(self.ty) <= u32::MAX,
            width(other.ty) <= u32::MAX,
        ensures
            r == (self.kind == other.kind && self.fan == other.fan && width(self.ty) == width(other.ty)),
    {
        self.kind == other.kind && self.fan == other.fan && self.ty.bit_width() == other.ty.bit_width()
    }
}

/// One `wire` of a graph, and who drives it.
///
/// A wire has no protocol to check, so the only thing worth counting is
/// drivers: two instances driving one `wire out` is not a race the salt
/// protocol resolves, it is two gates fighting over a net. An input may fan
/// out to as many readers as like it.
pub struct GraphWireInfo {
    pub ty: Ty,
    pub declared_at: Span,
    /// A graph input is driven from outside, an output from within.
    pub is_input: bool,
    /// Where each instance that drives it names it.
    pub drivers: Vec<Span>,
}

/// One pipe inside a graph: a port of the graph, or a `pipe` declaration.
pub struct GraphPipeInfo {
    pub ty: Ty,
    /// Where it was declared: a pipe nothing connects to has no instance to
    /// blame, and its declaration is the only place a reader can act on.
    pub declared_at: Span,
    /// `Some(true)` for an input of the enclosing graph, produced outside it;
    /// `Some(false)` for an output, consumed outside it; `None` inside.
    pub external: Option<bool>,
    pub producers: Vec<Span>,
    pub consumers: Vec<Span>,
}

pub type Report = (Severity, Option<Span>, Seq<char>, Option<Seq<char>>);

/// What is wrong with one wire, if anything.
pub open spec fn wire_report(name: Seq<char>, w: GraphWireInfo) -> Seq<Report> {
    if w.is_input || w.drivers@.len() == 1 {
        Seq::empty()
    } else if w.drivers@.len() == 0 {
        seq![error_with_note(w.declared_at, "`"@ + name + "` is an output wire that nothing drives"@,
            "connect it to a `wire out` parameter of something this graph instantiates"@)]
    } else {
        seq![error_with_note(w.drivers@[1], "`"@ + name + "` is driven by "@ + dec(w.drivers@.len()) + " instances"@,
            "a wire has no arbitration; exactly one thing may drive it"@)]
    }
}

/// What is wrong with each wire, in order.
pub open spec fn wire_reports(ws: Seq<(String, GraphWireInfo)>) -> Seq<Report>
    decreases ws.len(),
{
    if ws.len() == 0 {
        Seq::empty()
    } else {
        wire_reports(ws.drop_last()) + wire_report(ws.last().0@, ws.last().1)
    }
}

/// Every `wire out` of a graph is driven exactly once.
///
/// A wire carries no protocol, so this is the whole of what can be checked
/// about one, and both failures are silent in hardware: two drivers is an `x`
/// the simulator resolves and the synthesizer may not; none is a floating
/// output. `wires` is by name, in the order the graph lists them. Reports
/// each wire that fails, and says whether none did.
pub fn check_wires(wires: &Vec<(String, GraphWireInfo)>, sink: &mut DiagSink) -> (ok: bool)
    ensures
        *final(sink).map == *old(sink).map,
        saids(final(sink).diags@) == saids(old(sink).diags@) + wire_reports(wires@),
        ok == (wire_reports(wires@).len() == 0),
{
    let ghost d0 = saids(sink.diags@);
    let mut ok = true;
    let mut i: usize = 0;
    while i < wires.len()
        invariant
            i <= wires@.len(),
            *sink.map == *old(sink).map,
            d0 == saids(old(sink).diags@),
            saids(sink.diags@) == d0 + wire_reports(wires@.take(i as int)),
            ok == (wire_reports(wires@.take(i as int)).len() == 0),
        decreases wires@.len() - i,
    {
        proof {
            assert(wires@.take(i + 1).drop_last() =~= wires@.take(i as int));
        }
        let name = &wires[i].0;
        let info = &wires[i].1;
        let ghost before = saids(sink.diags@);
        if !info.is_input {
            let n = info.drivers.len();
            if n == 0 {
                let mut msg = String::from_str("`");
                msg.append(name.as_str());
                msg.append("` is an output wire that nothing drives");
                sink.err_note(info.declared_at, msg,
                    String::from_str("connect it to a `wire out` parameter of something this graph instantiates"));
                ok = false;
            } else if n > 1 {
                let mut msg = String::from_str("`");
                msg.append(name.as_str());
                msg.append("` is driven by ");
                push_decimal_wide(&mut msg, n as u128);
                msg.append(" instances");
                sink.err_note(info.drivers[1], msg,
                    String::from_str("a wire has no arbitration; exactly one thing may drive it"));
                ok = false;
            }
        }
        proof {
            let r = wire_report(name@, *info);
            assert(saids(sink.diags@) =~= before + r);
            assert(wire_reports(wires@.take(i + 1)) == wire_reports(wires@.take(i as int)) + r);
        }
        i = i + 1;
    }
    proof {
        assert(wires@.take(i as int) =~= wires@);
    }
    ok
}

/// How many producers a pipe has, counting the outside world for a graph
/// input.
pub open spec fn producers(p: GraphPipeInfo) -> nat {
    p.producers@.len() + (if p.external == Some(true) { 1nat } else { 0nat })
}

/// How many consumers a pipe has, counting the outside world for a graph
/// output.
pub open spec fn consumers(p: GraphPipeInfo) -> nat {
    p.consumers@.len() + (if p.external == Some(false) { 1nat } else { 0nat })
}

/// Where to blame a pipe: the first instance that named it, producing or
/// consuming, or else its declaration.
pub open spec fn blame(p: GraphPipeInfo) -> Span {
    if p.producers@.len() > 0 {
        p.producers@[0]
    } else if p.consumers@.len() > 0 {
        p.consumers@[0]
    } else {
        p.declared_at
    }
}

/// What is wrong with one pipe, if anything: its producing end, then its
/// consuming end.
pub open spec fn pipe_report(graph: Seq<char>, name: Seq<char>, p: GraphPipeInfo) -> Seq<Report> {
    let at = blame(p);
    let prod: Seq<Report> = if producers(p) == 0 {
        seq![error_with_note(at, "nothing sends to `"@ + name + "`"@,
            "every pipe needs a producer; an unconnected one reads as an intermittent hang"@)]
    } else if producers(p) > 1 {
        seq![error_with_note(at, "`"@ + name + "` has "@ + dec(producers(p)) + " producers"@,
            "write `@merge(a, b, p)`, which grants one of them per cycle in rotation; two drivers on one net resolve to `x`"@)]
    } else {
        Seq::empty()
    };
    let cons: Seq<Report> = if consumers(p) == 0 {
        seq![error_with_note(at, "nothing receives from `"@ + name + "` in `"@ + graph + "`"@,
            "every pipe needs a consumer, or its producer stalls forever once the slot fills"@)]
    } else if consumers(p) > 1 {
        seq![error_with_note(at, "`"@ + name + "` has "@ + dec(consumers(p)) + " consumers"@,
            "write `@split(p, a, b)`, which gives each consumer its own copy and its own pair of entries; naming one pipe twice puts two drivers on one salt"@)]
    } else {
        Seq::empty()
    };
    prod + cons
}

/// What is wrong with each pipe, in order.
pub open spec fn pipe_reports(graph: Seq<char>, ps: Seq<(String, GraphPipeInfo)>) -> Seq<Report>
    decreases ps.len(),
{
    if ps.len() == 0 {
        Seq::empty()
    } else {
        pipe_reports(graph, ps.drop_last()) + pipe_report(graph, ps.last().0@, ps.last().1)
    }
}

/// Exactly one producer and exactly one consumer for every pipe.
///
/// One producer and several consumers is what `@split` is for, which gives
/// each consumer its own pair of entries and its own salt; two instances on
/// one net have nowhere to put the copies, and what comes out is two drivers
/// on a salt leg. A graph input arrives already produced and a graph output
/// leaves to be consumed outside, so that end is not missing. Reports each
/// failing end, and says whether none failed.
pub fn check_endpoints(graph_name: &str, pipes: &Vec<(String, GraphPipeInfo)>, sink: &mut DiagSink) -> (ok: bool)
    ensures
        *final(sink).map == *old(sink).map,
        saids(final(sink).diags@) == saids(old(sink).diags@) + pipe_reports(graph_name@, pipes@),
        ok == (pipe_reports(graph_name@, pipes@).len() == 0),
{
    let ghost d0 = saids(sink.diags@);
    let mut ok = true;
    let mut i: usize = 0;
    while i < pipes.len()
        invariant
            i <= pipes@.len(),
            *sink.map == *old(sink).map,
            d0 == saids(old(sink).diags@),
            saids(sink.diags@) == d0 + pipe_reports(graph_name@, pipes@.take(i as int)),
            ok == (pipe_reports(graph_name@, pipes@.take(i as int)).len() == 0),
        decreases pipes@.len() - i,
    {
        proof {
            assert(pipes@.take(i + 1).drop_last() =~= pipes@.take(i as int));
        }
        let name = &pipes[i].0;
        let info = &pipes[i].1;
        let ghost before = saids(sink.diags@);
        let np: u128 = info.producers.len() as u128 + if info.external == Some(true) { 1 } else { 0 };
        let nc: u128 = info.consumers.len() as u128 + if info.external == Some(false) { 1 } else { 0 };
        let at = if info.producers.len() > 0 {
            info.producers[0]
        } else if info.consumers.len() > 0 {
            info.consumers[0]
        } else {
            info.declared_at
        };
        if np == 0 {
            let mut msg = String::from_str("nothing sends to `");
            msg.append(name.as_str());
            msg.append("`");
            sink.err_note(at, msg,
                String::from_str("every pipe needs a producer; an unconnected one reads as an intermittent hang"));
            ok = false;
        } else if np > 1 {
            let mut msg = String::from_str("`");
            msg.append(name.as_str());
            msg.append("` has ");
            push_decimal_wide(&mut msg, np);
            msg.append(" producers");
            sink.err_note(at, msg, String::from_str(
                "write `@merge(a, b, p)`, which grants one of them per cycle in rotation; two drivers on one net resolve to `x`"));
            ok = false;
        }
        let ghost mid = saids(sink.diags@);
        if nc == 0 {
            let mut msg = String::from_str("nothing receives from `");
            msg.append(name.as_str());
            msg.append("` in `");
            msg.append(graph_name);
            msg.append("`");
            sink.err_note(at, msg,
                String::from_str("every pipe needs a consumer, or its producer stalls forever once the slot fills"));
            ok = false;
        } else if nc > 1 {
            let mut msg = String::from_str("`");
            msg.append(name.as_str());
            msg.append("` has ");
            push_decimal_wide(&mut msg, nc);
            msg.append(" consumers");
            sink.err_note(at, msg, String::from_str(
                "write `@split(p, a, b)`, which gives each consumer its own copy and its own pair of entries; naming one pipe twice puts two drivers on one salt"));
            ok = false;
        }
        proof {
            let r = pipe_report(graph_name@, name@, *info);
            assert(np == producers(*info));
            assert(nc == consumers(*info));
            assert(at == blame(*info));
            assert(saids(sink.diags@) =~= before + r);
            assert(pipe_reports(graph_name@, pipes@.take(i + 1)) == pipe_reports(graph_name@, pipes@.take(i as int)) + r);
        }
        i = i + 1;
    }
    proof {
        assert(pipes@.take(i as int) =~= pipes@);
    }
    ok
}


/// A `wire in` or `wire out` parameter: one port, and no protocol.
pub open spec fn is_wire_arg(a: GraphArg) -> bool {
    a.qualifier is WireIn || a.qualifier is WireOut
}

/// A parameter a graph can take: not named like the implicit clock or
/// reset, and a pipe or a wire.
pub open spec fn arg_fits(a: GraphArg) -> bool {
    &&& a.name@ != "clk"@
    &&& a.name@ != "rst_n"@
    &&& (a.qualifier is BufferIn || a.qualifier is BufferOut || a.qualifier is WireIn || a.qualifier is WireOut)
}

/// How many ports the first `i` parameters take: one per wire, three per
/// pipe.
#[verifier::opaque]
pub open spec fn ports_before(args: Seq<GraphArg>, i: int) -> nat
    decreases i,
{
    if i <= 0 {
        0
    } else {
        ports_before(args, i - 1) + if is_wire_arg(args[i - 1]) { 1nat } else { 3nat }
    }
}

proof fn lemma_ports_before_step(args: Seq<GraphArg>, i: int)
    requires
        0 <= i,
    ensures
        ports_before(args, 0) == 0,
        ports_before(args, i + 1) == ports_before(args, i) + if is_wire_arg(args[i]) { 1nat } else { 3nat },
{
    reveal(ports_before);
}

proof fn lemma_ports_before_bound(args: Seq<GraphArg>, i: int)
    requires
        0 <= i,
    ensures
        ports_before(args, i) <= 3 * i,
    decreases i,
{
    reveal(ports_before);
    if i > 0 {
        lemma_ports_before_bound(args, i - 1);
    }
}

/// No two parameters share a name.
pub open spec fn arg_names_distinct(args: Seq<GraphArg>) -> bool {
    forall|a: int, b: int| 0 <= a < b < args.len() ==> #[trigger] args[a].name@ != #[trigger] args[b].name@
}

/// The ports of a graph, in order: `clk` and `rst_n` first, in the positions
/// a process puts them so a graph can itself be an instance, then for each
/// parameter a wire's one port or a pipe's three.
///
/// Fails, reporting why, on the first parameter named `clk` or `rst_n`, one
/// that is neither a pipe nor a wire, or one declared twice.
pub fn graph_ports(args: &Vec<GraphArg>, sink: &mut DiagSink) -> (r: Option<Vec<Port>>)
    requires
        2 + 3 * args@.len() < usize::MAX,
    ensures
        *final(sink).map == *old(sink).map,
        extends(old(sink).diags@, final(sink).diags@),
        r is Some <==> (forall|i: int| 0 <= i < args@.len() ==> arg_fits(#[trigger] args@[i])) && arg_names_distinct(args@),
        r is None ==> error_from(final(sink).diags@, old(sink).diags@.len() as int),
        r matches Some(ps) ==> {
            &&& final(sink).diags@ == old(sink).diags@
            &&& ps@.len() == 2 + ports_before(args@, args@.len() as int)
            &&& ps@[0].name@ == "clk"@ && ps@[0].dir == PortDir::In
            &&& ps@[1].name@ == "rst_n"@ && ps@[1].dir == PortDir::In
            &&& forall|i: int| 0 <= i < args@.len() && !is_wire_arg(#[trigger] args@[i]) ==> pipe_ports(
                ps@,
                2 + ports_before(args@, i),
                args@[i].name@,
                args@[i].ty,
                args@[i].qualifier is BufferIn,
            )
            &&& forall|i: int| 0 <= i < args@.len() && is_wire_arg(#[trigger] args@[i]) ==> {
                let p = ps@[2 + ports_before(args@, i) as int];
                &&& p.name@ == args@[i].name@
                &&& p.dir == (if args@[i].qualifier is WireIn { PortDir::In } else { PortDir::Out })
                &&& p.ty == args@[i].ty
            }
        },
{
    proof {
        reveal_strlit("clk");
        reveal_strlit("rst_n");
        lemma_ports_before_step(args@, 0);
    }
    let mut ports: Vec<Port> = Vec::new();
    ports.push(Port { name: String::from_str("clk"), dir: PortDir::In, ty: bool_type() });
    ports.push(Port { name: String::from_str("rst_n"), dir: PortDir::In, ty: bool_type() });
    let clk = String::from_str("clk");
    let rst = String::from_str("rst_n");
    let n = args.len();
    let mut i: usize = 0;
    while i < n
        invariant
            i <= n,
            n == args@.len(),
            2 + 3 * n < usize::MAX,
            clk@ == "clk"@,
            rst@ == "rst_n"@,
            ports@.len() == 2 + ports_before(args@, i as int),
            ports@[0].name@ == "clk"@ && ports@[0].dir == PortDir::In,
            ports@[1].name@ == "rst_n"@ && ports@[1].dir == PortDir::In,
            forall|q: int| 0 <= q < i ==> arg_fits(#[trigger] args@[q]),
            forall|a: int, b: int| 0 <= a < b < i ==> #[trigger] args@[a].name@ != #[trigger] args@[b].name@,
            forall|q: int| 0 <= q < i && !is_wire_arg(#[trigger] args@[q]) ==> pipe_ports(
                ports@,
                2 + ports_before(args@, q),
                args@[q].name@,
                args@[q].ty,
                args@[q].qualifier is BufferIn,
            ),
            forall|q: int| 0 <= q < i && is_wire_arg(#[trigger] args@[q]) ==> {
                let p = ports@[2 + ports_before(args@, q) as int];
                &&& p.name@ == args@[q].name@
                &&& p.dir == (if args@[q].qualifier is WireIn { PortDir::In } else { PortDir::Out })
                &&& p.ty == args@[q].ty
            },
            *sink.map == *old(sink).map,
            sink.diags@ == old(sink).diags@,
        decreases n - i,
    {
        proof {
            lemma_ports_before_bound(args@, i as int);
            lemma_ports_before_step(args@, i as int);
        }
        let a = &args[i];
        if a.name == clk || a.name == rst {
            let mut msg = String::from_str("`");
            msg.append(a.name.as_str());
            msg.append("` is implicit on a graph");
            fail(sink, a.span, msg);
            proof { assert(!arg_fits(args@[i as int])); }
            return None;
        }
        let (is_input, is_wire) = match a.qualifier {
            Qualifier::BufferIn => (true, false),
            Qualifier::BufferOut => (false, false),
            Qualifier::WireIn => (true, true),
            Qualifier::WireOut => (false, true),
            _ => {
                let mut msg = String::from_str("`");
                msg.append(a.name.as_str());
                msg.append("` is not a pipe or a wire, and a graph connects nothing else");
                let d = crate::diag::Diag::error(a.span, msg).with_note(String::from_str(
                    "a graph parameter is `buffer in`, `buffer out`, `wire in` or `wire out`"));
                sink.push(d);
                proof {
                    let ds = sink.diags@;
                    assert(ds[ds.len() - 1].severity == Severity::Error);
                    assert forall|k: int| 0 <= k < old(sink).diags@.len() implies #[trigger] ds[k] == old(sink).diags@[k] by {}
                    assert(!arg_fits(args@[i as int]));
                }
                return None;
            },
        };
        let mut k: usize = 0;
        while k < i
            invariant
                k <= i,
                i < n,
                n == args@.len(),
                forall|q: int| 0 <= q < k ==> args@[q].name@ != args@[i as int].name@,
                *a == args@[i as int],
                *sink.map == *old(sink).map,
                sink.diags@ == old(sink).diags@,
            decreases i - k,
        {
            if args[k].name == a.name {
                let mut msg = String::from_str("`");
                msg.append(a.name.as_str());
                msg.append("` is declared twice");
                fail(sink, a.span, msg);
                proof {
                    assert(args@[k as int].name@ == args@[i as int].name@);
                    assert(!arg_names_distinct(args@));
                }
                return None;
            }
            k = k + 1;
        }
        let ghost pv0 = ports@;
        if is_wire {
            let dir = if is_input { PortDir::In } else { PortDir::Out };
            ports.push(Port { name: a.name.clone(), dir, ty: a.ty.clone() });
        } else {
            let (vd, rd) = if is_input { (PortDir::In, PortDir::Out) } else { (PortDir::Out, PortDir::In) };
            ports.push(Port { name: suffixed(&a.name, "_wsalt"), dir: vd, ty: salt() });
            ports.push(Port { name: suffixed(&a.name, "_rsalt"), dir: rd, ty: salt() });
            ports.push(Port { name: suffixed(&a.name, "_data"), dir: vd, ty: Ty::Array(Box::new(a.ty.clone()), 2) });
        }
        proof {
            assert forall|q: int| 0 <= q < pv0.len() implies #[trigger] ports@[q] == pv0[q] by {}
            assert forall|q: int| 0 <= q < i + 1 && !is_wire_arg(#[trigger] args@[q]) implies pipe_ports(
                ports@,
                2 + ports_before(args@, q),
                args@[q].name@,
                args@[q].ty,
                args@[q].qualifier is BufferIn,
            ) by {
                if q < i {
                    lemma_ports_before_step(args@, q);
                    lemma_ports_before_mono(args@, q + 1, i as int);
                    let b = (2 + ports_before(args@, q)) as int;
                    assert(ports@[b] == pv0[b]);
                    assert(ports@[b + 1] == pv0[b + 1]);
                    assert(ports@[b + 2] == pv0[b + 2]);
                }
            }
            assert forall|q: int| 0 <= q < i + 1 && is_wire_arg(#[trigger] args@[q]) implies {
                let p = ports@[2 + ports_before(args@, q) as int];
                &&& p.name@ == args@[q].name@
                &&& p.dir == (if args@[q].qualifier is WireIn { PortDir::In } else { PortDir::Out })
                &&& p.ty == args@[q].ty
            } by {
                if q < i {
                    lemma_ports_before_step(args@, q);
                    lemma_ports_before_mono(args@, q + 1, i as int);
                    let b = (2 + ports_before(args@, q)) as int;
                    assert(ports@[b] == pv0[b]);
                }
            }
        }
        i = i + 1;
    }
    Some(ports)
}

proof fn lemma_ports_before_mono(args: Seq<GraphArg>, i: int, j: int)
    requires
        0 <= i <= j,
    ensures
        ports_before(args, i) <= ports_before(args, j),
    decreases j - i,
{
    reveal(ports_before);
    if i < j {
        lemma_ports_before_mono(args, i, j - 1);
    }
}

} // verus!
