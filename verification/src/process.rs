// A process's interface: the implicit clock and reset, then its parameters.
//
// A `buffer` parameter becomes a pipe of three flat ports; a plain parameter
// is configuration, folded to a constant and gone, and costs no port.

use vstd::prelude::*;
use crate::diag::{DiagSink, Severity, saids};
use crate::env::{Env, Binding};
use crate::ir::Op;
use crate::ir_fsm::{classify_param, error_from, extends, fail, param_spec};
use crate::lowerer::{Lowerer, ParamKind, pipe_ports};
use crate::syntax::Param;
use crate::ty::{Ty, width};

verus! {

/// A parameter of a process as lowering takes it: the declaration, its type
/// as the front end resolved it, and, for a plain parameter, the constant its
/// default folded to.
#[derive(Debug)]
pub struct ProcessParam {
    pub param: Param,
    pub ty: Ty,
    pub value: Option<u128>,
}

/// A `buffer in` or `buffer out` parameter.
pub open spec fn is_pipe_param(p: Param) -> bool {
    p.qualifier is BufferIn || p.qualifier is BufferOut
}

/// How many of the first `i` parameters are pipes.
#[verifier::opaque]
pub open spec fn pipes_before(ps: Seq<ProcessParam>, i: int) -> nat
    decreases i,
{
    if i <= 0 {
        0
    } else {
        pipes_before(ps, i - 1) + if is_pipe_param(ps[i - 1].param) { 1nat } else { 0nat }
    }
}

/// A parameter a process can take: not named like the implicit clock or
/// reset, a pipe or a plain parameter, not a memory, and a plain one with a
/// value.
pub open spec fn param_fits(p: ProcessParam) -> bool {
    &&& p.param.name@ != "clk"@
    &&& p.param.name@ != "rst_n"@
    &&& param_spec(p.param) is Ok
    &&& !(p.ty is Mem)
    &&& (p.param.qualifier is In ==> p.value is Some)
}

/// No two parameters share a name.
pub open spec fn distinct_names(ps: Seq<ProcessParam>) -> bool {
    forall|a: int, b: int| 0 <= a < b < ps.len() ==> #[trigger] ps[a].param.name@ != #[trigger] ps[b].param.name@
}

proof fn lemma_pipes_before_step(ps: Seq<ProcessParam>, i: int)
    requires
        0 <= i,
    ensures
        pipes_before(ps, 0) == 0,
        pipes_before(ps, i + 1) == pipes_before(ps, i) + if is_pipe_param(ps[i].param) { 1nat } else { 0nat },
{
    reveal(pipes_before);
}

proof fn lemma_pipes_before_grows(ps: Seq<ProcessParam>, i: int, j: int)
    requires
        i <= j,
    ensures
        pipes_before(ps, i) <= pipes_before(ps, j),
    decreases j - i,
{
    reveal(pipes_before);
    if i < j {
        lemma_pipes_before_grows(ps, i, j - 1);
    }
}

proof fn lemma_pipes_before_bound(ps: Seq<ProcessParam>, i: int)
    requires
        0 <= i,
    ensures
        pipes_before(ps, i) <= i,
    decreases i,
{
    reveal(pipes_before);
    if i > 0 {
        lemma_pipes_before_bound(ps, i - 1);
    }
}

/// Declares one parameter: a pipe's three ports, or a constant bound to a
/// plain parameter's name. Reports why a parameter does not fit instead.
#[verifier::spinoff_prover]
fn declare_param(low: &mut Lowerer, p: &ProcessParam, env: &mut Env, sink: &mut DiagSink) -> (ok: bool)
    requires
        old(low).inv(),
        old(low).room(1),
        old(low).ports_view().len() + 3 < u32::MAX,
        2 * width(p.ty) <= u32::MAX,
    ensures
        final(low).inv(),
        final(low).vals().len() <= old(low).vals().len() + 1,
        *final(sink).map == *old(sink).map,
        extends(old(sink).diags@, final(sink).diags@),
        ok == param_fits(*p),
        ok ==> final(sink).diags@ == old(sink).diags@,
        !ok ==> error_from(final(sink).diags@, old(sink).diags@.len() as int),
        ok && is_pipe_param(p.param) ==> {
            &&& final(low).ports_view().len() == old(low).ports_view().len() + 3
            &&& final(low).ports_view().subrange(0, old(low).ports_view().len() as int) == old(low).ports_view()
            &&& pipe_ports(final(low).ports_view(), old(low).ports_view().len(), p.param.name@, p.ty, p.param.qualifier is BufferIn)
            &&& final(low).pipes@.len() == old(low).pipes@.len() + 1
            &&& final(low).params@ == old(low).params@
            &&& forall|k: Seq<char>| #[trigger] final(env).lookup(k) == old(env).lookup(k)
        },
        ok && !is_pipe_param(p.param) ==> {
            &&& final(low).ports_view() == old(low).ports_view()
            &&& final(low).pipes@.len() == old(low).pipes@.len()
            &&& final(low).params@.len() == old(low).params@.len() + 1
            &&& final(low).params@.last().0@ == p.param.name@
            &&& final(low).params@.last().1 == p.ty
            &&& Some(final(low).params@.last().2) == p.value
            &&& final(env).lookup(p.param.name@) matches Some(b) && b.ty == p.ty && !b.is_mutable
            &&& forall|k: Seq<char>| k != p.param.name@ ==> #[trigger] final(env).lookup(k) == old(env).lookup(k)
        },
{
    proof {
        reveal_strlit("clk");
        reveal_strlit("rst_n");
    }
    let name = &p.param.name;
    let clk = String::from_str("clk");
    let rst = String::from_str("rst_n");
    if *name == clk || *name == rst {
        let mut msg = String::from_str("`");
        msg.append(name.as_str());
        msg.append("` is implicit on a process");
        fail(sink, p.param.span, msg);
        return false;
    }
    let ghost d0 = sink.diags@;
    let kind = match classify_param(&p.param, sink) {
        Some(k) => k,
        None => {
            proof {
                let ds = sink.diags@;
                assert(saids(ds).len() == saids(d0).len() + 1);
                assert(ds[ds.len() - 1].severity == Severity::Error) by {
                    assert(saids(ds)[ds.len() - 1] == crate::diag::said(ds[ds.len() - 1]));
                }
                assert(extends(d0, ds)) by {
                    assert forall|k: int| 0 <= k < d0.len() implies #[trigger] ds[k] == d0[k] by {
                        assert(ds.drop_last()[k] == ds[k]);
                    }
                }
            }
            return false;
        },
    };
    if p.ty.is_memory() {
        let mut msg = String::from_str("`");
        msg.append(name.as_str());
        msg.append("` is a memory, which cannot be a parameter");
        fail(sink, p.param.span, msg);
        return false;
    }
    match kind {
        ParamKind::Constant => {
            let k = match p.value {
                Some(k) => k,
                None => {
                    let mut msg = String::from_str("`");
                    msg.append(name.as_str());
                    msg.append("` has no value");
                    fail(sink, p.param.span, msg);
                    return false;
                },
            };
            let v = low.emit(p.ty.clone(), Op::Const(k));
            env.insert(name.clone(), Binding::constant(v, p.ty.clone()));
            low.params.push((name.clone(), p.ty.clone(), k));
        },
        ParamKind::Pipe { is_input } => {
            let _ix = low.declare_pipe(name.clone(), p.ty.clone(), is_input);
        },
    }
    true
}

/// Declares what a process's signature gives it: `clk` and `rst_n` first,
/// in the positions a graph expects them, then for each `buffer` parameter,
/// in order, its three ports, and for each plain parameter a constant bound
/// to its name.
///
/// Fails, reporting why, on the first parameter that does not fit: one
/// named `clk` or `rst_n`, a `wire`, an `out` or an `inout`, a memory, or a
/// plain parameter with no value.
#[verifier::spinoff_prover]
pub fn declare_params(low: &mut Lowerer, params: &Vec<ProcessParam>, env: &mut Env, sink: &mut DiagSink) -> (ok: bool)
    requires
        old(low).inv(),
        old(low).room((2 + params@.len()) as nat),
        old(low).ports_view().len() + 2 + 3 * params@.len() < u32::MAX,
        forall|i: int| 0 <= i < params@.len() ==> 2 * width(#[trigger] params@[i].ty) <= u32::MAX,
    ensures
        final(low).inv(),
        *final(sink).map == *old(sink).map,
        extends(old(sink).diags@, final(sink).diags@),
        ok == (forall|i: int| 0 <= i < params@.len() ==> param_fits(#[trigger] params@[i])),
        ok ==> final(sink).diags@ == old(sink).diags@,
        !ok ==> error_from(final(sink).diags@, old(sink).diags@.len() as int),
        ok ==> final(low).ports_view().len() == old(low).ports_view().len() + 2 + 3 * pipes_before(params@, params@.len() as int),
        ok ==> final(low).ports_view()[old(low).ports_view().len() as int].name@ == "clk"@,
        ok ==> final(low).ports_view()[old(low).ports_view().len() + 1 as int].name@ == "rst_n"@,
        ok ==> final(low).pipes@.len() == old(low).pipes@.len() + pipes_before(params@, params@.len() as int),
        ok ==> final(low).params@.len() == old(low).params@.len() + params@.len() - pipes_before(params@, params@.len() as int),
        ok && distinct_names(params@) ==> forall|i: int| 0 <= i < params@.len() && (#[trigger] params@[i].param).qualifier is In
            ==> (final(env).lookup(params@[i].param.name@) matches Some(b) && b.ty == params@[i].ty && !b.is_mutable),
        ok ==> forall|i: int| 0 <= i < params@.len() && is_pipe_param(#[trigger] params@[i].param) ==> pipe_ports(
            final(low).ports_view(),
            old(low).ports_view().len() + 2 + 3 * pipes_before(params@, i),
            params@[i].param.name@,
            params@[i].ty,
            params@[i].param.qualifier is BufferIn,
        ),
{
    let ghost p0 = low.ports_view().len();
    let ghost d0 = sink.diags@;
    proof { lemma_pipes_before_step(params@, 0); }
    low.declare_clock(env);
    let n = params.len();
    let mut i: usize = 0;
    while i < n
        invariant
            i <= n,
            n == params@.len(),
            low.inv(),
            low.room((n - i) as nat),
            p0 == old(low).ports_view().len(),
            p0 + 2 + 3 * n < u32::MAX,
            forall|q: int| 0 <= q < n ==> 2 * width(#[trigger] params@[q].ty) <= u32::MAX,
            low.ports_view().len() == p0 + 2 + 3 * pipes_before(params@, i as int),
            low.ports_view()[p0 as int].name@ == "clk"@,
            low.ports_view()[p0 + 1 as int].name@ == "rst_n"@,
            low.pipes@.len() == old(low).pipes@.len() + pipes_before(params@, i as int),
            low.params@.len() == old(low).params@.len() + i - pipes_before(params@, i as int),
            forall|q: int| 0 <= q < i ==> param_fits(#[trigger] params@[q]),
            forall|q: int| 0 <= q < i && is_pipe_param(#[trigger] params@[q].param) ==> pipe_ports(
                low.ports_view(),
                p0 + 2 + 3 * pipes_before(params@, q),
                params@[q].param.name@,
                params@[q].ty,
                params@[q].param.qualifier is BufferIn,
            ),
            distinct_names(params@) ==> forall|q: int| 0 <= q < i && (#[trigger] params@[q].param).qualifier is In
                ==> (env.lookup(params@[q].param.name@) matches Some(b) && b.ty == params@[q].ty && !b.is_mutable),
            *sink.map == *old(sink).map,
            sink.diags@ == d0,
            d0 == old(sink).diags@,
        decreases n - i,
    {
        proof {
            lemma_pipes_before_bound(params@, i as int);
        }
        let ghost pv0 = low.ports_view();
        let ghost e0 = *env;
        let ghost dd = sink.diags@;
        if !declare_param(low, &params[i], env, sink) {
            proof {
                assert(!param_fits(params@[i as int]));
            }
            return false;
        }
        proof {
            let pv = low.ports_view();
            lemma_pipes_before_step(params@, i as int);
            assert forall|q: int| 0 <= q < pv0.len() implies #[trigger] pv[q] == pv0[q] by {
                assert(pv.subrange(0, pv0.len() as int)[q] == pv[q]);
            }
            assert forall|q: int| 0 <= q < i + 1 && is_pipe_param(#[trigger] params@[q].param) implies pipe_ports(
                pv,
                p0 + 2 + 3 * pipes_before(params@, q),
                params@[q].param.name@,
                params@[q].ty,
                params@[q].param.qualifier is BufferIn,
            ) by {
                if q < i {
                    lemma_pipes_before_step(params@, q);
                    lemma_pipes_before_grows(params@, q + 1, i as int);
                    let b = (p0 + 2 + 3 * pipes_before(params@, q)) as int;
                    assert(pv[b] == pv0[b]);
                    assert(pv[b + 1] == pv0[b + 1]);
                    assert(pv[b + 2] == pv0[b + 2]);
                }
            }
            if distinct_names(params@) {
                assert forall|q: int| 0 <= q < i + 1 && (#[trigger] params@[q].param).qualifier is In
                    implies (env.lookup(params@[q].param.name@) matches Some(b) && b.ty == params@[q].ty && !b.is_mutable) by {
                    if q < i {
                        assert(params@[q].param.name@ != params@[i as int].param.name@);
                        assert(env.lookup(params@[q].param.name@) == e0.lookup(params@[q].param.name@));
                    }
                }
            }
        }
        i = i + 1;
    }
    true
}

} // verus!
