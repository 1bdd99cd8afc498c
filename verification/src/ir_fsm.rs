// The pieces of process lowering that stand on their own: what a state waits
// on, where control goes, and the gates every state's logic is built from.

use vstd::prelude::*;
use crate::ir::{BinOp, CmpOp, Op, ValueId, vid_ok};
use crate::ir::{ValueDef, Reg};
use crate::lowerer::{Lowerer, bool_type, def_is, appended, emitted, emit_result};
use crate::ty::{Ty, bool_ty, two_to, width};
use crate::ir_export::names;
use crate::diag::{DiagSink, Diag, Severity, Span, saids, error_at, error_with_note};
use crate::lowerer::ParamKind;
use crate::ir_match::{BindingPattern, MatchCase};
use crate::syntax::{Param, Qualifier, Builtin, Expr, Stmt, blocking, expr_blocks, stmt_blocks, exprs_block, stmts_block, expr_reads,
    stmt_reads, exprs_read, stmts_read};

verus! {

/// Which channel a blocking operation waits on.
#[derive(Debug, Clone, Copy, PartialEq, Eq, Structural)]
pub enum BarrierOn {
    Pipe(usize),
    Port(usize),
}

/// A blocking operation: what the state it ends waits on.
///
/// A port is a pipe without back-pressure, so `@rcv` and `@send` mean on one
/// what they mean on the other and cost the same cycle.
#[derive(Debug)]
pub struct Barrier {
    pub on: BarrierOn,
    pub is_recv: bool,
    /// The name a receive binds.
    pub bind: Option<String>,
    /// The value a send offers.
    pub value: Option<Expr>,
    /// Whether the receive's declaration was a `var`.
    pub mutable: bool,
}

impl Barrier {
    /// The pipe this waits on, or `None` when it waits on a port.
    pub fn pipe(&self) -> (r: Option<usize>)
        ensures
            r == (match self.on {
                BarrierOn::Pipe(ix) => Some(ix),
                BarrierOn::Port(_) => None,
            }),
    {
        match self.on {
            BarrierOn::Pipe(ix) => Some(ix),
            BarrierOn::Port(_) => None,
        }
    }

    /// The port this waits on, or `None` when it waits on a pipe.
    pub fn port(&self) -> (r: Option<usize>)
        ensures
            r == (match self.on {
                BarrierOn::Port(ix) => Some(ix),
                BarrierOn::Pipe(_) => None,
            }),
    {
        match self.on {
            BarrierOn::Port(ix) => Some(ix),
            BarrierOn::Pipe(_) => None,
        }
    }
}

/// Where control goes.
///
/// `Exit` is the end of the body: the first state again for a `loop`, and the
/// terminal state for a body that runs once. `Halt` is `break`.
#[derive(Debug, Clone, Copy, PartialEq, Eq, Structural)]
pub enum Target {
    State(usize),
    Exit,
    Halt,
}

/// `state == k`, for gating everything that belongs to one state.
pub fn in_state(low: &mut Lowerer, state: ValueId, ty: &Ty, k: u128) -> (r: ValueId)
    requires
        old(low).inv(),
        old(low).room(2),
        vid_ok(state, old(low).vals().len()),
    ensures
        final(low).inv(),
        final(low).same_frame(old(low)),
        appended(old(low).vals(), final(low).vals(), 2),
        r.0 == old(low).vals().len() + 1,
        def_is(final(low).vals()[old(low).vals().len() as int], old(low).vals().len(), *ty, Op::Const(k)),
        def_is(final(low).vals()[r.0 as int], r.0 as nat, bool_ty(),
            Op::Cmp { op: CmpOp::Eq, lhs: state, rhs: ValueId(old(low).vals().len() as u32) }),
{
    let konst = low.emit(ty.clone(), Op::Const(k));
    let r = low.emit(bool_type(), Op::Cmp { op: CmpOp::Eq, lhs: state, rhs: konst });
    proof { assert(final(low).vals().subrange(0, old(low).vals().len() as int) =~= old(low).vals()); }
    r
}

/// A non-empty list of conditions folded from the left with `op`, each step
/// an `emit`: the values afterwards and the answer.
pub open spec fn chained(vals: Seq<ValueDef>, conds: Seq<ValueId>, op: BinOp) -> (Seq<ValueDef>, ValueId)
    decreases conds.len(),
{
    if conds.len() <= 1 {
        (vals, conds[0])
    } else {
        let (v, acc) = chained(vals, conds.drop_last(), op);
        let o = Op::Bin { op, lhs: acc, rhs: conds.last() };
        (emitted(v, bool_ty(), o), emit_result(v, bool_ty(), o))
    }
}

/// What folding `conds` with `op` leaves: the fold where there is something
/// to fold, else a new constant `identity`.
pub open spec fn chain_result(vals: Seq<ValueDef>, conds: Seq<ValueId>, op: BinOp, identity: u128) -> (Seq<ValueDef>, ValueId) {
    if conds.len() == 0 {
        (vals.push(ValueDef { id: ValueId(vals.len() as u32), ty: bool_ty(), op: Op::Const(identity), name: None }),
            ValueId(vals.len() as u32))
    } else {
        chained(vals, conds, op)
    }
}

/// ORs a list of conditions; false when the list is empty.
pub fn any_of(low: &mut Lowerer, conds: &[ValueId]) -> (r: ValueId)
    requires
        old(low).inv(),
        old(low).room(conds@.len() + 1),
        forall|j: int| 0 <= j < conds@.len() ==> vid_ok(#[trigger] conds@[j], old(low).vals().len()),
    ensures
        final(low).inv(),
        final(low).adds(old(low), conds@.len() + 1),
        vid_ok(r, final(low).vals().len()),
        (final(low).vals(), r) == chain_result(old(low).vals(), conds@, BinOp::Or, 0),
        conds@.len() == 1 ==> r == conds@[0],
        conds@.len() == 0 ==> r.0 == old(low).vals().len()
            && def_is(final(low).vals()[r.0 as int], r.0 as nat, bool_ty(), Op::Const(0)),
{
    chain(low, conds, BinOp::Or, 0)
}

/// ANDs a list of conditions; true when the list is empty.
pub fn all_of(low: &mut Lowerer, conds: &[ValueId]) -> (r: ValueId)
    requires
        old(low).inv(),
        old(low).room(conds@.len() + 1),
        forall|j: int| 0 <= j < conds@.len() ==> vid_ok(#[trigger] conds@[j], old(low).vals().len()),
    ensures
        final(low).inv(),
        final(low).adds(old(low), conds@.len() + 1),
        vid_ok(r, final(low).vals().len()),
        (final(low).vals(), r) == chain_result(old(low).vals(), conds@, BinOp::And, 1),
        conds@.len() == 1 ==> r == conds@[0],
        conds@.len() == 0 ==> r.0 == old(low).vals().len()
            && def_is(final(low).vals()[r.0 as int], r.0 as nat, bool_ty(), Op::Const(1)),
{
    chain(low, conds, BinOp::And, 1)
}

/// Folds a list with one operator, or the operator's identity when empty.
fn chain(low: &mut Lowerer, conds: &[ValueId], op: BinOp, identity: u128) -> (r: ValueId)
    requires
        old(low).inv(),
        old(low).room(conds@.len() + 1),
        forall|j: int| 0 <= j < conds@.len() ==> vid_ok(#[trigger] conds@[j], old(low).vals().len()),
    ensures
        final(low).inv(),
        final(low).adds(old(low), conds@.len() + 1),
        vid_ok(r, final(low).vals().len()),
        (final(low).vals(), r) == chain_result(old(low).vals(), conds@, op, identity),
        conds@.len() == 1 ==> r == conds@[0],
        conds@.len() == 0 ==> r.0 == old(low).vals().len()
            && def_is(final(low).vals()[r.0 as int], r.0 as nat, bool_ty(), Op::Const(identity)),
{
    let ghost n0 = low.vals().len();
    let ghost v0 = low.vals();
    let mut acc: Option<ValueId> = None;
    let mut i: usize = 0;
    while i < conds.len()
        invariant
            low.inv(),
            low.same_frame(old(low)),
            crate::lowerer::grows(old(low).vals(), low.vals()),
            crate::lowerer::no_reg_reads(low.vals(), n0),
            n0 == old(low).vals().len(),
            v0 == old(low).vals(),
            i <= conds@.len(),
            low.vals().len() <= n0 + i,
            old(low).room(conds@.len() + 1),
            forall|j: int| 0 <= j < conds@.len() ==> vid_ok(#[trigger] conds@[j], n0),
            i == 0 <==> acc is None,
            acc matches Some(a) ==> vid_ok(a, low.vals().len()),
            i == 1 ==> acc == Some(conds@[0]),
            i == 0 ==> low.vals() == v0,
            i >= 1 ==> (low.vals(), acc->0) == chained(v0, conds@.take(i as int), op),
        decreases conds@.len() - i,
    {
        let c = conds[i];
        let ghost before = *low;
        let ghost prev = acc;
        acc = Some(match acc {
            None => c,
            Some(prev) => low.emit(bool_type(), Op::Bin { op, lhs: prev, rhs: c }),
        });
        proof {
            let t = conds@.take(i + 1);
            assert(t.drop_last() =~= conds@.take(i as int));
            assert(t.last() == c);
            if i > 0 {
                crate::lowerer::lemma_emitted(before.vals(), bool_ty(), Op::Bin { op, lhs: prev->0, rhs: c });
            } else {
                assert(t.len() == 1 && t[0] == c);
            }
        }
        i = i + 1;
    }
    proof {
        if i >= 1 {
            assert(conds@.take(i as int) =~= conds@);
        }
    }
    match acc {
        Some(v) => v,
        None => {
            let v = low.emit(bool_type(), Op::Const(identity));
            v
        },
    }
}

/// The width a state register needs to count `n` states: the smallest `w`,
/// at least one, with `n <= 2^w`.
pub fn state_width(n: usize) -> (w: u32)
    requires
        n <= 0x8000_0000,
    ensures
        w >= 1,
        n <= two_to(w as nat),
        w == 1 || two_to((w - 1) as nat) < n,
{
    let mut w: u32 = 1;
    let mut lim: u64 = 2;
    proof { reveal_with_fuel(two_to, 2); }
    while lim < n as u64
        invariant
            1 <= w <= 31,
            lim as nat == two_to(w as nat),
            lim <= 0x8000_0000,
            n <= 0x8000_0000,
            w == 1 || two_to((w - 1) as nat) < n,
        decreases 32 - w,
    {
        proof {
            assert(two_to((w + 1) as nat) == 2 * two_to(w as nat));
            if w >= 31 {
                lemma_two_to_31(w as nat);
            }
            assert(w <= 30);
            crate::ty::lemma_two_to_monotone((w + 1) as nat, 31);
            lemma_two_to_31(31);
            assert(two_to(31) == 0x8000_0000) by { reveal_with_fuel(two_to, 32); }
        }
        lim = lim * 2;
        w = w + 1;
    }
    w
}

proof fn lemma_two_to_31(w: nat)
    requires
        w >= 31,
    ensures
        two_to(w) >= 0x8000_0000,
    decreases w,
{
    if w == 31 {
        reveal_with_fuel(two_to, 32);
    } else {
        lemma_two_to_31((w - 1) as nat);
        assert(two_to(w) == 2 * two_to((w - 1) as nat));
    }
}

/// How control leaves a state.
///
/// `C` is a branch condition and `M` a `match` statement, as the front end
/// holds them: the condition is lowered in the state's own scope, after its
/// barrier binds, and the patterns are resolved only when the `match` is
/// lowered. Scheduling moves the targets around and nothing else.
#[derive(Debug)]
pub enum Next<C, M> {
    Straight(Target),
    Branch { cond: C, then_t: Target, else_t: Target },
    /// A `match` whose arms need states of their own; `targets` is one per
    /// case of `stmt`, in order.
    Switch { stmt: M, targets: Vec<Target> },
}

/// `t`, with a jump to state `from` sent to `to` instead.
pub open spec fn swapped(t: Target, from: usize, to: Target) -> Target {
    if t == Target::State(from) {
        to
    } else {
        t
    }
}

/// `new` is `was` with every jump to state `from` sent to `to` instead.
pub open spec fn retargeted<C, M>(new: Next<C, M>, was: Next<C, M>, from: usize, to: Target) -> bool {
    match (new, was) {
        (Next::Straight(a), Next::Straight(b)) => a == swapped(b, from, to),
        (Next::Branch { cond: c1, then_t: t1, else_t: e1 }, Next::Branch { cond: c2, then_t: t2, else_t: e2 }) => {
            c1 == c2 && t1 == swapped(t2, from, to) && e1 == swapped(e2, from, to)
        },
        (Next::Switch { stmt: s1, targets: ts1 }, Next::Switch { stmt: s2, targets: ts2 }) => {
            s1 == s2 && ts1@ == ts2@.map_values(|t: Target| swapped(t, from, to))
        },
        _ => false,
    }
}

fn swap_target(t: Target, from: usize, to: Target) -> (r: Target)
    ensures
        r == swapped(t, from, to),
{
    if t == Target::State(from) {
        to
    } else {
        t
    }
}

/// Closes a loop once its entry is known.
///
/// A loop's back edge cannot be written when the body is scheduled: the walk
/// is backwards, so the body's last statement needs the loop's first state
/// and that is the last thing decided. The body is scheduled against a
/// placeholder instead, and this sends every jump to the placeholder to the
/// entry. The placeholder is then unreachable, and the renumbering drops it.
pub fn retarget<C, M>(nexts: &mut Vec<Next<C, M>>, from: usize, to: Target)
    ensures
        final(nexts)@.len() == old(nexts)@.len(),
        forall|i: int| 0 <= i < old(nexts)@.len() ==> retargeted(#[trigger] final(nexts)@[i], old(nexts)@[i], from, to),
{
    let mut i: usize = 0;
    while i < nexts.len()
        invariant
            i <= nexts@.len(),
            nexts@.len() == old(nexts)@.len(),
            forall|k: int| 0 <= k < i ==> retargeted(#[trigger] nexts@[k], old(nexts)@[k], from, to),
            forall|k: int| i <= k < nexts@.len() ==> #[trigger] nexts@[k] == old(nexts)@[k],
        decreases nexts@.len() - i,
    {
        match &mut nexts[i] {
            Next::Straight(t) => {
                *t = swap_target(*t, from, to);
            },
            Next::Branch { then_t, else_t, .. } => {
                *then_t = swap_target(*then_t, from, to);
                *else_t = swap_target(*else_t, from, to);
            },
            Next::Switch { targets, .. } => {
                let ghost ts0 = targets@;
                let mut k: usize = 0;
                while k < targets.len()
                    invariant
                        k <= targets@.len(),
                        targets@.len() == ts0.len(),
                        forall|j: int| 0 <= j < k ==> #[trigger] targets@[j] == swapped(ts0[j], from, to),
                        forall|j: int| k <= j < targets@.len() ==> #[trigger] targets@[j] == ts0[j],
                    decreases targets@.len() - k,
                {
                    let t = swap_target(targets[k], from, to);
                    targets.set(k, t);
                    k = k + 1;
                }
                proof {
                    assert(targets@ =~= ts0.map_values(|t: Target| swapped(t, from, to)));
                }
            },
        }
        i = i + 1;
    }
}

/// Each list of strings by its text.
pub open spec fn name_lists(v: Seq<Vec<String>>) -> Seq<Seq<Seq<char>>> {
    v.map_values(|l: Vec<String>| names(l@))
}

/// Some state other than `i` reads `n`.
pub open spec fn read_elsewhere(reads: Seq<Seq<Seq<char>>>, i: int, n: Seq<char>) -> bool {
    exists|j: int| 0 <= j < reads.len() && j != i && #[trigger] reads[j].contains(n)
}

/// The names of `ds`, in order, that a state other than `i` reads.
pub open spec fn crossing_in(ds: Seq<Seq<char>>, reads: Seq<Seq<Seq<char>>>, i: int) -> Seq<Seq<char>>
    decreases ds.len(),
{
    if ds.len() == 0 {
        Seq::empty()
    } else {
        let prev = crossing_in(ds.drop_last(), reads, i);
        if read_elsewhere(reads, i, ds.last()) {
            prev.push(ds.last())
        } else {
            prev
        }
    }
}

fn holds(v: &Vec<String>, x: &String) -> (r: bool)
    ensures
        r == names(v@).contains(x@),
{
    let mut k: usize = 0;
    while k < v.len()
        invariant
            k <= v@.len(),
            forall|j: int| 0 <= j < k ==> v@[j]@ != x@,
        decreases v@.len() - k,
    {
        if v[k] == *x {
            proof {
                assert(names(v@)[k as int] == x@);
            }
            return true;
        }
        k = k + 1;
    }
    proof {
        if names(v@).contains(x@) {
            let j = choose|j: int| 0 <= j < names(v@).len() && names(v@)[j] == x@;
            assert(v@[j]@ == x@);
        }
    }
    false
}

fn is_read_elsewhere(reads: &Vec<Vec<String>>, i: usize, n: &String) -> (r: bool)
    ensures
        r == read_elsewhere(name_lists(reads@), i as int, n@),
{
    let ghost rs = name_lists(reads@);
    let mut j: usize = 0;
    while j < reads.len()
        invariant
            j <= reads@.len(),
            rs == name_lists(reads@),
            forall|k: int| 0 <= k < j && k != i ==> !(#[trigger] rs[k]).contains(n@),
        decreases reads@.len() - j,
    {
        if j != i && holds(&reads[j], n) {
            proof {
                assert(rs[j as int] == names(reads@[j as int]@));
            }
            return true;
        }
        proof {
            assert(rs[j as int] == names(reads@[j as int]@));
        }
        j = j + 1;
    }
    false
}

/// Bindings defined in one state and read in another, per state.
///
/// These cannot be wires: the value has to survive a clock edge, so each
/// gets a register written in the state that defines it. "Another state"
/// rather than "a later state", because with branches there is no total
/// order to be later in. Registering a value no reachable state reads costs
/// a register the synthesizer then removes; failing to register one that is
/// read across an edge is a wrong answer, so the approximation goes the safe
/// way.
///
/// `defines[i]` and `reads[i]` are what state `i` binds and reads.
pub fn crossing_lists(defines: &Vec<Vec<String>>, reads: &Vec<Vec<String>>) -> (r: Vec<Vec<String>>)
    requires
        defines@.len() == reads@.len(),
    ensures
        r@.len() == defines@.len(),
        forall|i: int| 0 <= i < r@.len() ==> names(#[trigger] r@[i]@) == crossing_in(
            names(defines@[i]@),
            name_lists(reads@),
            i,
        ),
{
    let mut r: Vec<Vec<String>> = Vec::new();
    let mut i: usize = 0;
    while i < defines.len()
        invariant
            i <= defines@.len(),
            r@.len() == i,
            forall|k: int| 0 <= k < i ==> names(#[trigger] r@[k]@) == crossing_in(
                names(defines@[k]@),
                name_lists(reads@),
                k,
            ),
        decreases defines@.len() - i,
    {
        let ds = &defines[i];
        let ghost dn = names(ds@);
        let mut out: Vec<String> = Vec::new();
        let mut k: usize = 0;
        while k < ds.len()
            invariant
                k <= ds@.len(),
                dn == names(ds@),
                names(out@) == crossing_in(dn.take(k as int), name_lists(reads@), i as int),
            decreases ds@.len() - k,
        {
            proof {
                assert(dn.take(k + 1).drop_last() =~= dn.take(k as int));
                assert(dn.take(k + 1).last() == ds@[k as int]@);
            }
            if is_read_elsewhere(reads, i, &ds[k]) {
                let ghost before = out@;
                out.push(ds[k].clone());
                proof {
                    assert(names(out@) =~= names(before).push(ds@[k as int]@));
                }
            }
            k = k + 1;
        }
        proof {
            assert(dn.take(k as int) =~= dn);
        }
        r.push(out);
        i = i + 1;
    }
    r
}


fn is_blocking(e: &Expr) -> (r: bool)
    ensures
        r == blocking(*e),
{
    match e {
        Expr::Builtin(Builtin::BlockingReceive) => true,
        Expr::Builtin(Builtin::BlockingSend) => true,
        _ => false,
    }
}

/// Whether one of `es`, from `i` on, holds a blocking operation.
fn exprs_contain_barrier(es: &Vec<Expr>, i: usize) -> (r: bool)
    ensures
        r == exprs_block(es@, i as int),
    decreases es@, es@.len() - i,
{
    if i < es.len() {
        expr_contains_barrier(&es[i]) || exprs_contain_barrier(es, i + 1)
    } else {
        false
    }
}

/// Whether one of `ss`, from `i` on, holds a blocking operation.
fn stmts_contain_barrier(ss: &Vec<Stmt>, i: usize) -> (r: bool)
    ensures
        r == stmts_block(ss@, i as int),
    decreases ss@, ss@.len() - i,
{
    if i < ss.len() {
        contains_barrier(&ss[i]) || stmts_contain_barrier(ss, i + 1)
    } else {
        false
    }
}

/// Whether an expression holds a blocking operation.
fn expr_contains_barrier(e: &Expr) -> (r: bool)
    ensures
        r == expr_blocks(*e),
    decreases *e, 0nat,
{
    match e {
        Expr::Call { base, args } => is_blocking(base) || exprs_contain_barrier(args, 0),
        Expr::Block(stmts) => stmts_contain_barrier(stmts, 0),
        Expr::Field { base, .. } => expr_contains_barrier(base),
        Expr::Index { base, index } => expr_contains_barrier(base) || expr_contains_barrier(index),
        Expr::Splice(parts) => exprs_contain_barrier(parts, 0),
        _ => false,
    }
}

/// True if this statement contains a blocking operation anywhere inside it.
///
/// Used to reject a barrier nested in a conditional, which cannot be scheduled
/// without a control-flow graph.
pub fn contains_barrier(stmt: &Stmt) -> (r: bool)
    ensures
        r == stmt_blocks(*stmt),
    decreases *stmt, 0nat,
{
    match stmt {
        Stmt::Let { value, .. } => match value {
            Some(e) => expr_contains_barrier(e),
            None => false,
        },
        Stmt::Call { base, args } => is_blocking(base) || exprs_contain_barrier(args, 0),
        Stmt::Assign { value, .. } => expr_contains_barrier(value),
        Stmt::If { cond, then_arm, else_arm } => {
            expr_contains_barrier(cond) || expr_contains_barrier(then_arm) || match else_arm {
                Some(e) => expr_contains_barrier(e),
                None => false,
            }
        },
        Stmt::Match { scrutinees, arms, .. } => exprs_contain_barrier(scrutinees, 0) || exprs_contain_barrier(arms, 0),
        Stmt::Tail(e) => expr_contains_barrier(e),
        Stmt::Loop { body } => expr_contains_barrier(body),
        Stmt::For { target, body, .. } => expr_contains_barrier(target) || expr_contains_barrier(body),
        Stmt::Return(value) => match value {
            Some(e) => expr_contains_barrier(e),
            None => false,
        },
        Stmt::Break => false,
    }
}

/// Name `x` is among `v`.
pub open spec fn holds_name(v: Seq<String>, x: Seq<char>) -> bool {
    exists|i: int| 0 <= i < v.len() && #[trigger] v[i]@ == x
}

/// Adds a name unless it is there already.
fn note_read(out: &mut Vec<String>, n: &String)
    ensures
        forall|x: Seq<char>| #[trigger] holds_name(final(out)@, x) <==> holds_name(old(out)@, x) || x == n@,
        names(old(out)@).no_duplicates() ==> names(final(out)@).no_duplicates(),
{
    let mut i: usize = 0;
    while i < out.len()
        invariant
            i <= out@.len(),
            forall|j: int| 0 <= j < i ==> out@[j]@ != n@,
        decreases out@.len() - i,
    {
        if out[i].eq(n) {
            proof {
                assert forall|x: Seq<char>| #[trigger] holds_name(out@, x) <==> holds_name(out@, x) || x == n@ by {
                    if x == n@ {
                        assert(out@[i as int]@ == x);
                    }
                }
            }
            return;
        }
        i = i + 1;
    }
    let ghost before = out@;
    out.push(n.clone());
    proof {
        assert forall|x: Seq<char>| #[trigger] holds_name(out@, x) <==> holds_name(before, x) || x == n@ by {
            if holds_name(before, x) {
                let k = choose|k: int| 0 <= k < before.len() && #[trigger] before[k]@ == x;
                assert(out@[k] == before[k]);
            }
            if x == n@ {
                assert(out@[before.len() as int]@ == x);
            }
            if holds_name(out@, x) {
                let k = choose|k: int| 0 <= k < out@.len() && #[trigger] out@[k]@ == x;
                if k < before.len() {
                    assert(out@[k] == before[k]);
                }
            }
        }
        if names(before).no_duplicates() {
            assert forall|a: int, b: int| 0 <= a < b < names(out@).len() implies names(out@)[a] != names(out@)[b] by {
                if b == before.len() {
                    assert(names(out@)[a] == before[a]@);
                } else {
                    assert(names(out@)[a] == names(before)[a]);
                    assert(names(out@)[b] == names(before)[b]);
                }
            }
        }
    }
}

/// What reading through `f` adds to `out`: exactly the names `f` reads.
pub open spec fn adds_reads(old_out: Seq<String>, new_out: Seq<String>, f: spec_fn(Seq<char>) -> bool) -> bool {
    &&& forall|x: Seq<char>| #[trigger] holds_name(new_out, x) <==> holds_name(old_out, x) || f(x)
    &&& names(old_out).no_duplicates() ==> names(new_out).no_duplicates()
}

fn exprs_reads_of(es: &Vec<Expr>, i: usize, out: &mut Vec<String>)
    ensures
        adds_reads(old(out)@, final(out)@, |x: Seq<char>| exprs_read(es@, i as int, x)),
    decreases es@, es@.len() - i,
{
    if i < es.len() {
        let ghost o0 = out@;
        expr_reads_of(&es[i], out);
        let ghost o1 = out@;
        exprs_reads_of(es, i + 1, out);
        proof {
            assert forall|x: Seq<char>| #[trigger] holds_name(out@, x) <==> holds_name(o0, x) || exprs_read(es@, i as int, x) by {
                assert(holds_name(o1, x) <==> holds_name(o0, x) || expr_reads(es@[i as int], x));
                assert(holds_name(out@, x) <==> holds_name(o1, x) || exprs_read(es@, i + 1, x));
            }
        }
    }
}

fn stmts_reads_of(ss: &Vec<Stmt>, i: usize, out: &mut Vec<String>)
    ensures
        adds_reads(old(out)@, final(out)@, |x: Seq<char>| stmts_read(ss@, i as int, x)),
    decreases ss@, ss@.len() - i,
{
    if i < ss.len() {
        let ghost o0 = out@;
        reads_of(&ss[i], out);
        let ghost o1 = out@;
        stmts_reads_of(ss, i + 1, out);
        proof {
            assert forall|x: Seq<char>| #[trigger] holds_name(out@, x) <==> holds_name(o0, x) || stmts_read(ss@, i as int, x) by {
                assert(holds_name(o1, x) <==> holds_name(o0, x) || stmt_reads(ss@[i as int], x));
                assert(holds_name(out@, x) <==> holds_name(o1, x) || stmts_read(ss@, i + 1, x));
            }
        }
    }
}

/// Adds to `out` every name an expression reads.
fn expr_reads_of(e: &Expr, out: &mut Vec<String>)
    ensures
        adds_reads(old(out)@, final(out)@, |x: Seq<char>| expr_reads(*e, x)),
    decreases *e, 0nat,
{
    let ghost o0 = out@;
    match e {
        Expr::Ref(n) => {
            note_read(out, n);
        },
        Expr::Call { base, args } => {
            expr_reads_of(base, out);
            let ghost o1 = out@;
            exprs_reads_of(args, 0, out);
            proof {
                assert forall|x: Seq<char>| #[trigger] holds_name(out@, x) <==> holds_name(o0, x) || expr_reads(*e, x) by {
                    assert(holds_name(o1, x) <==> holds_name(o0, x) || expr_reads(**base, x));
                    assert(holds_name(out@, x) <==> holds_name(o1, x) || exprs_read(args@, 0, x));
                }
            }
        },
        Expr::Field { base, .. } => {
            expr_reads_of(base, out);
        },
        Expr::Index { base, index } => {
            expr_reads_of(base, out);
            let ghost o1 = out@;
            expr_reads_of(index, out);
            proof {
                assert forall|x: Seq<char>| #[trigger] holds_name(out@, x) <==> holds_name(o0, x) || expr_reads(*e, x) by {
                    assert(holds_name(o1, x) <==> holds_name(o0, x) || expr_reads(**base, x));
                    assert(holds_name(out@, x) <==> holds_name(o1, x) || expr_reads(**index, x));
                }
            }
        },
        Expr::Splice(parts) => {
            exprs_reads_of(parts, 0, out);
        },
        Expr::Block(stmts) => {
            stmts_reads_of(stmts, 0, out);
        },
        _ => {},
    }
}

/// Adds to `out` every name a statement reads, the base of an assignment's
/// target among them.
pub fn reads_of(stmt: &Stmt, out: &mut Vec<String>)
    ensures
        adds_reads(old(out)@, final(out)@, |x: Seq<char>| stmt_reads(*stmt, x)),
    decreases *stmt, 0nat,
{
    let ghost o0 = out@;
    match stmt {
        Stmt::Let { value, .. } => {
            match value {
                Some(e) => expr_reads_of(e, out),
                None => {},
            }
        },
        Stmt::Call { args, .. } => {
            exprs_reads_of(args, 0, out);
        },
        Stmt::Assign { target, value } => {
            expr_reads_of(value, out);
            let ghost o1 = out@;
            expr_reads_of(target, out);
            proof {
                assert forall|x: Seq<char>| #[trigger] holds_name(out@, x) <==> holds_name(o0, x) || stmt_reads(*stmt, x) by {
                    assert(holds_name(o1, x) <==> holds_name(o0, x) || expr_reads(*value, x));
                    assert(holds_name(out@, x) <==> holds_name(o1, x) || expr_reads(*target, x));
                }
            }
        },
        Stmt::If { cond, then_arm, else_arm } => {
            expr_reads_of(cond, out);
            let ghost o1 = out@;
            expr_reads_of(then_arm, out);
            let ghost o2 = out@;
            match else_arm {
                Some(e) => expr_reads_of(e, out),
                None => {},
            }
            proof {
                assert forall|x: Seq<char>| #[trigger] holds_name(out@, x) <==> holds_name(o0, x) || stmt_reads(*stmt, x) by {
                    assert(holds_name(o1, x) <==> holds_name(o0, x) || expr_reads(*cond, x));
                    assert(holds_name(o2, x) <==> holds_name(o1, x) || expr_reads(*then_arm, x));
                }
            }
        },
        Stmt::Match { scrutinees, arms, .. } => {
            exprs_reads_of(scrutinees, 0, out);
            let ghost o1 = out@;
            exprs_reads_of(arms, 0, out);
            proof {
                assert forall|x: Seq<char>| #[trigger] holds_name(out@, x) <==> holds_name(o0, x) || stmt_reads(*stmt, x) by {
                    assert(holds_name(o1, x) <==> holds_name(o0, x) || exprs_read(scrutinees@, 0, x));
                    assert(holds_name(out@, x) <==> holds_name(o1, x) || exprs_read(arms@, 0, x));
                }
            }
        },
        Stmt::Tail(e) => {
            expr_reads_of(e, out);
        },
        Stmt::Loop { body } => {
            expr_reads_of(body, out);
        },
        Stmt::For { target, body, .. } => {
            expr_reads_of(target, out);
            let ghost o1 = out@;
            expr_reads_of(body, out);
            proof {
                assert forall|x: Seq<char>| #[trigger] holds_name(out@, x) <==> holds_name(o0, x) || stmt_reads(*stmt, x) by {
                    assert(holds_name(o1, x) <==> holds_name(o0, x) || expr_reads(*target, x));
                    assert(holds_name(out@, x) <==> holds_name(o1, x) || expr_reads(*body, x));
                }
            }
        },
        Stmt::Return(value) => {
            match value {
                Some(e) => expr_reads_of(e, out),
                None => {},
            }
        },
        Stmt::Break => {},
    }
}


/// What classifying a parameter answers: its kind, or the error it is
/// reported with.
pub open spec fn param_spec(p: Param) -> Result<ParamKind, (Severity, Option<Span>, Seq<char>, Option<Seq<char>>)> {
    match p.qualifier {
        Qualifier::BufferIn => Ok(ParamKind::Pipe { is_input: true }),
        Qualifier::BufferOut => Ok(ParamKind::Pipe { is_input: false }),
        Qualifier::In => Ok(ParamKind::Constant),
        Qualifier::WireIn | Qualifier::WireOut => Err(error_with_note(p.span,
            "`"@ + p.name@ + "` is a `wire`, which this declaration cannot take"@,
            "only an `extern` or a `graph` takes a `wire`; a body reads a `buffer`"@)),
        Qualifier::Inout => Err(error_at(p.span, "`inout` parameters are not supported"@)),
        Qualifier::Out => Err(error_with_note(p.span,
            "`"@ + p.name@ + "` is an `out` parameter, and a process has no plain outputs"@,
            "results leave through a `buffer out` pipe"@)),
    }
}

/// Classifies one parameter of a `process` or `sequence`, or reports why it
/// cannot be one: data crosses through pipes, a plain parameter is a
/// constant, and a `wire`, an `out` or an `inout` has no place in a body.
pub fn classify_param(param: &Param, sink: &mut DiagSink) -> (r: Option<ParamKind>)
    ensures
        *final(sink).map == *old(sink).map,
        match param_spec(*param) {
            Ok(k) => r == Some(k) && final(sink).diags@ == old(sink).diags@,
            Err(e) => r is None && saids(final(sink).diags@) == saids(old(sink).diags@).push(e)
                && final(sink).diags@.drop_last() == old(sink).diags@,
        },
{
    let ghost d0 = sink.diags@;
    match param.qualifier {
        Qualifier::BufferIn => Some(ParamKind::Pipe { is_input: true }),
        Qualifier::BufferOut => Some(ParamKind::Pipe { is_input: false }),
        Qualifier::In => Some(ParamKind::Constant),
        Qualifier::WireIn | Qualifier::WireOut => {
            let mut msg = String::from_str("`");
            msg.append(param.name.as_str());
            msg.append("` is a `wire`, which this declaration cannot take");
            let d = Diag::error(param.span, msg).with_note(String::from_str(
                "only an `extern` or a `graph` takes a `wire`; a body reads a `buffer`"));
            sink.push(d);
            proof {
                assert(saids(sink.diags@) =~= saids(d0).push(crate::diag::said(d)));
                assert(sink.diags@.drop_last() =~= d0);
            }
            None
        },
        Qualifier::Inout => {
            sink.err_span(param.span, String::from_str("`inout` parameters are not supported"));
            proof { assert(saids(sink.diags@) =~= saids(d0).push(crate::diag::said(sink.diags@.last()))); }
            None
        },
        Qualifier::Out => {
            let mut msg = String::from_str("`");
            msg.append(param.name.as_str());
            msg.append("` is an `out` parameter, and a process has no plain outputs");
            let d = Diag::error(param.span, msg).with_note(String::from_str("results leave through a `buffer out` pipe"));
            sink.push(d);
            proof {
                assert(saids(sink.diags@) =~= saids(d0).push(crate::diag::said(d)));
                assert(sink.diags@.drop_last() =~= d0);
            }
            None
        },
    }
}


/// A synchronous memory read: the address is presented in this state and the
/// value arrives in the next one.
#[derive(Debug)]
pub struct MemRead {
    pub mem_ix: usize,
    pub addr: Expr,
    pub bind: String,
}

/// A `match` that decides between states: its scrutinees and its arms.
#[derive(Debug)]
pub struct MatchOn {
    pub scrutinees: Vec<Expr>,
    pub cases: Vec<MatchCase>,
}

/// One state of the machine.
#[derive(Debug)]
pub struct State {
    /// Combinational statements that run while waiting, before the barrier.
    pub stmts: Vec<Stmt>,
    /// What this state waits on. `None` fires unconditionally.
    pub barrier: Option<Barrier>,
    /// A block RAM read this state presents the address for.
    pub mem_read: Option<MemRead>,
    /// Statements that run in the cycle the barrier fires.
    pub post: Vec<Stmt>,
    pub next: Next<Expr, MatchOn>,
    /// Something already jumps here, so it cannot be folded into the state
    /// before it.
    pub pinned: bool,
}

/// Name `x` is among `ns`, from `k` on.
pub open spec fn names_have(ns: Seq<String>, k: int, x: Seq<char>) -> bool
    decreases ns.len() - k,
{
    if 0 <= k < ns.len() {
        ns[k]@ == x || names_have(ns, k + 1, x)
    } else {
        false
    }
}

/// A statement that binds `x`: a `let` or `var` naming it.
pub open spec fn let_defines(s: Stmt, x: Seq<char>) -> bool {
    match s {
        Stmt::Let { names, .. } => names_have(names@, 0, x),
        _ => false,
    }
}

/// One of `ss`, from `i` on, binds `x`.
pub open spec fn stmts_define(ss: Seq<Stmt>, i: int, x: Seq<char>) -> bool
    decreases ss.len() - i,
{
    if 0 <= i < ss.len() {
        let_defines(ss[i], x) || stmts_define(ss, i + 1, x)
    } else {
        false
    }
}

/// A pattern brings `x` into scope.
pub open spec fn pattern_binds(p: BindingPattern, x: Seq<char>) -> bool
    decreases p, 0nat,
{
    match p {
        BindingPattern::Alphanum(n) => n.text@ == x,
        BindingPattern::EnumCase { subbinding, .. } => match subbinding {
            Some(n) => n.text@ == x,
            None => false,
        },
        BindingPattern::AnyOf(alts) => patterns_bind(alts@, 0, x),
    }
}

/// One of `ps`, from `i` on, brings `x` into scope.
pub open spec fn patterns_bind(ps: Seq<BindingPattern>, i: int, x: Seq<char>) -> bool
    decreases ps, ps.len() - i,
{
    if 0 <= i < ps.len() {
        pattern_binds(ps[i], x) || patterns_bind(ps, i + 1, x)
    } else {
        false
    }
}

/// One of the arms `cs`, from `i` on, brings `x` into scope.
pub open spec fn cases_bind(cs: Seq<MatchCase>, i: int, x: Seq<char>) -> bool
    decreases cs.len() - i,
{
    if 0 <= i < cs.len() {
        patterns_bind(cs[i].binding_patterns@, 0, x) || cases_bind(cs, i + 1, x)
    } else {
        false
    }
}

/// Everything a state binds: its `let`s, what its barrier receives, what its
/// memory read fetches, and what the arms of its `match` bind.
pub open spec fn state_defines(st: State, x: Seq<char>) -> bool {
    ||| stmts_define(st.stmts@, 0, x)
    ||| stmts_define(st.post@, 0, x)
    ||| (st.barrier matches Some(b) && b.bind matches Some(n) && n@ == x)
    ||| (st.mem_read matches Some(m) && m.bind@ == x)
    ||| (st.next matches Next::Switch { stmt, .. } && cases_bind(stmt.cases@, 0, x))
}

/// Everything a state reads: its statements, the value its barrier sends,
/// its memory read's address, its branch condition, its `match` scrutinees.
pub open spec fn state_reads(st: State, x: Seq<char>) -> bool {
    ||| stmts_read(st.stmts@, 0, x)
    ||| stmts_read(st.post@, 0, x)
    ||| (st.barrier matches Some(b) && b.value matches Some(v) && expr_reads(v, x))
    ||| (st.mem_read matches Some(m) && expr_reads(m.addr, x))
    ||| (st.next matches Next::Branch { cond, .. } && expr_reads(cond, x))
    ||| (st.next matches Next::Switch { stmt, .. } && exprs_read(stmt.scrutinees@, 0, x))
}

fn names_into(ns: &Vec<String>, k: usize, out: &mut Vec<String>)
    ensures
        adds_reads(old(out)@, final(out)@, |x: Seq<char>| names_have(ns@, k as int, x)),
    decreases ns@.len() - k,
{
    if k < ns.len() {
        let ghost o0 = out@;
        note_read(out, &ns[k]);
        let ghost o1 = out@;
        names_into(ns, k + 1, out);
        proof {
            assert forall|x: Seq<char>| #[trigger] holds_name(out@, x) <==> holds_name(o0, x) || names_have(ns@, k as int, x) by {
                assert(holds_name(o1, x) <==> holds_name(o0, x) || x == ns@[k as int]@);
                assert(holds_name(out@, x) <==> holds_name(o1, x) || names_have(ns@, k + 1, x));
            }
        }
    }
}

fn stmts_defines_into(ss: &Vec<Stmt>, i: usize, out: &mut Vec<String>)
    ensures
        adds_reads(old(out)@, final(out)@, |x: Seq<char>| stmts_define(ss@, i as int, x)),
    decreases ss@.len() - i,
{
    if i < ss.len() {
        let ghost o0 = out@;
        match &ss[i] {
            Stmt::Let { names, .. } => names_into(names, 0, out),
            _ => {},
        }
        let ghost o1 = out@;
        stmts_defines_into(ss, i + 1, out);
        proof {
            assert forall|x: Seq<char>| #[trigger] holds_name(out@, x) <==> holds_name(o0, x) || stmts_define(ss@, i as int, x) by {
                assert(holds_name(o1, x) <==> holds_name(o0, x) || let_defines(ss@[i as int], x));
                assert(holds_name(out@, x) <==> holds_name(o1, x) || stmts_define(ss@, i + 1, x));
            }
        }
    }
}

fn pattern_binds_into(p: &BindingPattern, out: &mut Vec<String>)
    ensures
        adds_reads(old(out)@, final(out)@, |x: Seq<char>| pattern_binds(*p, x)),
    decreases *p, 0nat,
{
    match p {
        BindingPattern::Alphanum(n) => note_read(out, &n.text),
        BindingPattern::EnumCase { subbinding, .. } => match subbinding {
            Some(n) => note_read(out, &n.text),
            None => {},
        },
        BindingPattern::AnyOf(alts) => patterns_bind_into(alts, 0, out),
    }
}

fn patterns_bind_into(ps: &Vec<BindingPattern>, i: usize, out: &mut Vec<String>)
    ensures
        adds_reads(old(out)@, final(out)@, |x: Seq<char>| patterns_bind(ps@, i as int, x)),
    decreases ps@, ps@.len() - i,
{
    if i < ps.len() {
        let ghost o0 = out@;
        pattern_binds_into(&ps[i], out);
        let ghost o1 = out@;
        patterns_bind_into(ps, i + 1, out);
        proof {
            assert forall|x: Seq<char>| #[trigger] holds_name(out@, x) <==> holds_name(o0, x) || patterns_bind(ps@, i as int, x) by {
                assert(holds_name(o1, x) <==> holds_name(o0, x) || pattern_binds(ps@[i as int], x));
                assert(holds_name(out@, x) <==> holds_name(o1, x) || patterns_bind(ps@, i + 1, x));
            }
        }
    }
}

fn cases_bind_into(cs: &Vec<MatchCase>, i: usize, out: &mut Vec<String>)
    ensures
        adds_reads(old(out)@, final(out)@, |x: Seq<char>| cases_bind(cs@, i as int, x)),
    decreases cs@.len() - i,
{
    if i < cs.len() {
        let ghost o0 = out@;
        patterns_bind_into(&cs[i].binding_patterns, 0, out);
        let ghost o1 = out@;
        cases_bind_into(cs, i + 1, out);
        proof {
            assert forall|x: Seq<char>| #[trigger] holds_name(out@, x) <==> holds_name(o0, x) || cases_bind(cs@, i as int, x) by {
                assert(holds_name(o1, x) <==> holds_name(o0, x) || patterns_bind(cs@[i as int].binding_patterns@, 0, x));
                assert(holds_name(out@, x) <==> holds_name(o1, x) || cases_bind(cs@, i + 1, x));
            }
        }
    }
}

/// Everything a state binds, each name once.
///
/// Every name of a `let`, not just the first: a `let (x, got) = @try_rcv(p)`
/// defines both, and a `got` read in a later state needs the same register
/// `x` does. A `match` arm's pattern binds in the state that decides the arm.
pub fn defines_of(st: &State) -> (r: Vec<String>)
    ensures
        forall|x: Seq<char>| #[trigger] holds_name(r@, x) <==> state_defines(*st, x),
        names(r@).no_duplicates(),
{
    let mut out: Vec<String> = Vec::new();
    proof { assert(names(out@) =~= Seq::<Seq<char>>::empty()); }
    let ghost o0 = out@;
    stmts_defines_into(&st.stmts, 0, &mut out);
    let ghost o1 = out@;
    stmts_defines_into(&st.post, 0, &mut out);
    let ghost o2 = out@;
    match &st.barrier {
        Some(b) => match &b.bind {
            Some(n) => note_read(&mut out, n),
            None => {},
        },
        None => {},
    }
    let ghost o3 = out@;
    match &st.mem_read {
        Some(m) => note_read(&mut out, &m.bind),
        None => {},
    }
    let ghost o4 = out@;
    match &st.next {
        Next::Switch { stmt, .. } => cases_bind_into(&stmt.cases, 0, &mut out),
        _ => {},
    }
    proof {
        assert forall|x: Seq<char>| #[trigger] holds_name(out@, x) <==> state_defines(*st, x) by {
            assert(!holds_name(o0, x));
            assert(holds_name(o1, x) <==> holds_name(o0, x) || stmts_define(st.stmts@, 0, x));
            assert(holds_name(o2, x) <==> holds_name(o1, x) || stmts_define(st.post@, 0, x));
        }
    }
    out
}

/// Everything a state reads, each name once: its statements, the value its
/// barrier sends, its memory read's address -- presented a cycle after the
/// state that computed it -- its branch condition and its scrutinees.
pub fn reads_in(st: &State) -> (r: Vec<String>)
    ensures
        forall|x: Seq<char>| #[trigger] holds_name(r@, x) <==> state_reads(*st, x),
        names(r@).no_duplicates(),
{
    let mut out: Vec<String> = Vec::new();
    proof { assert(names(out@) =~= Seq::<Seq<char>>::empty()); }
    let ghost o0 = out@;
    stmts_reads_of(&st.stmts, 0, &mut out);
    let ghost o1 = out@;
    stmts_reads_of(&st.post, 0, &mut out);
    let ghost o2 = out@;
    match &st.barrier {
        Some(b) => match &b.value {
            Some(v) => expr_reads_of(v, &mut out),
            None => {},
        },
        None => {},
    }
    let ghost o3 = out@;
    match &st.mem_read {
        Some(m) => expr_reads_of(&m.addr, &mut out),
        None => {},
    }
    let ghost o4 = out@;
    match &st.next {
        Next::Branch { cond, .. } => expr_reads_of(cond, &mut out),
        Next::Switch { stmt, .. } => exprs_reads_of(&stmt.scrutinees, 0, &mut out),
        _ => {},
    }
    proof {
        assert forall|x: Seq<char>| #[trigger] holds_name(out@, x) <==> state_reads(*st, x) by {
            assert(!holds_name(o0, x));
            assert(holds_name(o1, x) <==> holds_name(o0, x) || stmts_read(st.stmts@, 0, x));
            assert(holds_name(o2, x) <==> holds_name(o1, x) || stmts_read(st.post@, 0, x));
        }
    }
    out
}


/// Some state other than `i` reads `x`.
pub open spec fn read_by_other(states: Seq<State>, i: int, x: Seq<char>) -> bool {
    exists|j: int| 0 <= j < states.len() && j != i && #[trigger] state_reads(states[j], x)
}

proof fn lemma_holds_is_contains(v: Seq<String>)
    ensures
        forall|x: Seq<char>| #[trigger] holds_name(v, x) <==> names(v).contains(x),
{
    assert forall|x: Seq<char>| #[trigger] holds_name(v, x) <==> names(v).contains(x) by {
        if holds_name(v, x) {
            let k = choose|k: int| 0 <= k < v.len() && #[trigger] v[k]@ == x;
            assert(names(v)[k] == x);
        }
        if names(v).contains(x) {
            let k = choose|k: int| 0 <= k < names(v).len() && names(v)[k] == x;
            assert(v[k]@ == x);
        }
    }
}

proof fn lemma_push_contains(s: Seq<Seq<char>>, e: Seq<char>, x: Seq<char>)
    ensures
        s.push(e).contains(x) <==> s.contains(x) || x == e,
{
    if s.push(e).contains(x) {
        let k = choose|k: int| 0 <= k < s.len() + 1 && s.push(e)[k] == x;
        if k < s.len() {
            assert(s[k] == x);
        }
    }
    if s.contains(x) {
        let k = choose|k: int| 0 <= k < s.len() && s[k] == x;
        assert(s.push(e)[k] == x);
    }
    if x == e {
        assert(s.push(e)[s.len() as int] == x);
    }
}

#[verifier::spinoff_prover]
proof fn lemma_crossing_in(ds: Seq<Seq<char>>, reads: Seq<Seq<Seq<char>>>, i: int)
    ensures
        forall|x: Seq<char>| #[trigger] crossing_in(ds, reads, i).contains(x) <==> ds.contains(x) && read_elsewhere(reads, i, x),
        ds.no_duplicates() ==> crossing_in(ds, reads, i).no_duplicates(),
    decreases ds.len(),
{
    if ds.len() > 0 {
        let pre = ds.drop_last();
        lemma_crossing_in(pre, reads, i);
        let prev = crossing_in(pre, reads, i);
        assert forall|x: Seq<char>| ds.contains(x) <==> pre.contains(x) || x == ds.last() by {
            if ds.contains(x) {
                let k = choose|k: int| 0 <= k < ds.len() && ds[k] == x;
                if k < ds.len() - 1 {
                    assert(pre[k] == x);
                }
            }
            if pre.contains(x) {
                let k = choose|k: int| 0 <= k < pre.len() && pre[k] == x;
                assert(ds[k] == x);
            }
            if x == ds.last() {
                assert(ds[ds.len() - 1] == x);
            }
        }
        if read_elsewhere(reads, i, ds.last()) {
            assert forall|x: Seq<char>| prev.push(ds.last()).contains(x) <==> prev.contains(x) || x == ds.last() by {
                if prev.push(ds.last()).contains(x) {
                    let k = choose|k: int| 0 <= k < prev.len() + 1 && prev.push(ds.last())[k] == x;
                    if k < prev.len() {
                        assert(prev[k] == x);
                    }
                }
                if prev.contains(x) {
                    let k = choose|k: int| 0 <= k < prev.len() && prev[k] == x;
                    assert(prev.push(ds.last())[k] == x);
                }
                if x == ds.last() {
                    assert(prev.push(ds.last())[prev.len() as int] == x);
                }
            }
            if ds.no_duplicates() {
                assert(pre.no_duplicates()) by {
                    assert forall|a: int, b: int| 0 <= a < pre.len() && 0 <= b < pre.len() && a != b implies pre[a] != pre[b] by {
                        assert(pre[a] == ds[a] && pre[b] == ds[b]);
                    }
                }
                assert(!pre.contains(ds.last())) by {
                    if pre.contains(ds.last()) {
                        let k = choose|k: int| 0 <= k < pre.len() && pre[k] == ds.last();
                        assert(ds[k] == ds[ds.len() - 1]);
                    }
                }
                assert(!prev.contains(ds.last()));
                let q = prev.push(ds.last());
                assert forall|a: int, b: int| 0 <= a < q.len() && 0 <= b < q.len() && a != b implies q[a] != q[b] by {
                    if a < prev.len() && b < prev.len() {
                        assert(q[a] == prev[a] && q[b] == prev[b]);
                    } else if a < prev.len() {
                        assert(q[a] == prev[a]);
                        assert(prev.contains(q[a]));
                    } else if b < prev.len() {
                        assert(q[b] == prev[b]);
                        assert(prev.contains(q[b]));
                    }
                }
            }
        } else {
            if ds.no_duplicates() {
                assert(pre.no_duplicates()) by {
                    assert forall|a: int, b: int| 0 <= a < pre.len() && 0 <= b < pre.len() && a != b implies pre[a] != pre[b] by {
                        assert(pre[a] == ds[a] && pre[b] == ds[b]);
                    }
                }
            }
        }
        let cur = crossing_in(ds, reads, i);
        assert forall|x: Seq<char>| #[trigger] cur.contains(x) <==> ds.contains(x) && read_elsewhere(reads, i, x) by {
            assert(pre.contains(x) || x == ds.last() <==> ds.contains(x));
            if read_elsewhere(reads, i, ds.last()) {
                assert(cur == prev.push(ds.last()));
                lemma_push_contains(prev, ds.last(), x);
            } else {
                assert(cur == prev);
            }
        }
    } else {
        assert forall|x: Seq<char>| #[trigger] crossing_in(ds, reads, i).contains(x) <==> ds.contains(x) && read_elsewhere(reads, i, x) by {
            assert(crossing_in(ds, reads, i) =~= Seq::<Seq<char>>::empty());
        }
    }
}

/// For each state, the names it defines that some other state reads: each
/// gets a register written in the state that defines it, each name once.
///
/// "Another state" rather than "a later state", because with branches there
/// is no total order to be later in; registering a value no reachable state
/// reads costs a register the synthesizer then removes, while failing to
/// register one read across an edge would be a wrong answer.
pub fn crossing(states: &Vec<State>) -> (r: Vec<Vec<String>>)
    ensures
        r@.len() == states@.len(),
        forall|i: int, x: Seq<char>| 0 <= i < r@.len() ==> (#[trigger] holds_name(r@[i]@, x) <==> state_defines(
            states@[i],
            x,
        ) && read_by_other(states@, i, x)),
        forall|i: int| 0 <= i < r@.len() ==> names(#[trigger] r@[i]@).no_duplicates(),
{
    let mut defines: Vec<Vec<String>> = Vec::new();
    let mut reads: Vec<Vec<String>> = Vec::new();
    let mut k: usize = 0;
    while k < states.len()
        invariant
            k <= states@.len(),
            defines@.len() == k,
            reads@.len() == k,
            forall|m: int, x: Seq<char>| 0 <= m < k ==> (#[trigger] holds_name(defines@[m]@, x) <==> state_defines(states@[m], x)),
            forall|m: int, x: Seq<char>| 0 <= m < k ==> (#[trigger] holds_name(reads@[m]@, x) <==> state_reads(states@[m], x)),
            forall|m: int| 0 <= m < k ==> names(#[trigger] defines@[m]@).no_duplicates(),
        decreases states@.len() - k,
    {
        let d = defines_of(&states[k]);
        let rd = reads_in(&states[k]);
        defines.push(d);
        reads.push(rd);
        k = k + 1;
    }
    let r = crossing_lists(&defines, &reads);
    proof {
        let rl = name_lists(reads@);
        assert forall|i: int, x: Seq<char>| 0 <= i < r@.len() implies (#[trigger] holds_name(r@[i]@, x) <==> state_defines(
            states@[i],
            x,
        ) && read_by_other(states@, i, x)) by {
            lemma_holds_is_contains(r@[i]@);
            lemma_holds_is_contains(defines@[i]@);
            lemma_crossing_in(names(defines@[i]@), rl, i);
            assert(holds_name(defines@[i]@, x) <==> state_defines(states@[i], x));
            if read_elsewhere(rl, i, x) {
                let j = choose|j: int| 0 <= j < rl.len() && j != i && #[trigger] rl[j].contains(x);
                lemma_holds_is_contains(reads@[j]@);
                assert(rl[j] == names(reads@[j]@));
                assert(holds_name(reads@[j]@, x));
                assert(state_reads(states@[j], x));
            }
            if read_by_other(states@, i, x) {
                let j = choose|j: int| 0 <= j < states@.len() && j != i && #[trigger] state_reads(states@[j], x);
                lemma_holds_is_contains(reads@[j]@);
                assert(holds_name(reads@[j]@, x));
                assert(rl[j] == names(reads@[j]@));
                assert(rl[j].contains(x));
            }
        }
        assert forall|i: int| 0 <= i < r@.len() implies names(#[trigger] r@[i]@).no_duplicates() by {
            lemma_crossing_in(names(defines@[i]@), rl, i);
        }
    }
    r
}


/// What the names in a process body refer to, as scheduling needs them.
#[derive(Debug)]
pub struct Channels {
    /// The process's pipes, by index.
    pub pipes: Vec<String>,
    /// Its `port`s, by index, each with whether it is an input.
    pub ports: Vec<(String, bool)>,
    /// Its block RAMs, whose reads land a cycle late, by index.
    pub sync_mems: Vec<String>,
}

/// A jump that lands inside a list of `n` states, or leaves the body.
pub open spec fn target_ok(t: Target, n: nat) -> bool {
    match t {
        Target::State(j) => j < n,
        _ => true,
    }
}

/// Every jump `nx` can make lands inside a list of `n` states.
pub open spec fn next_ok(nx: Next<Expr, MatchOn>, n: nat) -> bool {
    match nx {
        Next::Straight(t) => target_ok(t, n),
        Next::Branch { then_t, else_t, .. } => target_ok(then_t, n) && target_ok(else_t, n),
        Next::Switch { targets, .. } => forall|k: int| 0 <= k < targets@.len() ==> target_ok(#[trigger] targets@[k], n),
    }
}

/// No state jumps outside the list.
pub open spec fn targets_below(states: Seq<State>) -> bool {
    forall|i: int| 0 <= i < states.len() ==> next_ok(#[trigger] states[i].next, states.len())
}

/// `after` keeps every diagnostic of `before`, in place.
pub open spec fn extends(before: Seq<Diag>, after: Seq<Diag>) -> bool {
    &&& before.len() <= after.len()
    &&& forall|k: int| 0 <= k < before.len() ==> #[trigger] after[k] == before[k]
}

/// Some diagnostic of `ds` from position `start` on is an error.
pub open spec fn error_from(ds: Seq<Diag>, start: int) -> bool {
    exists|k: int| start <= k < ds.len() && (#[trigger] ds[k]).severity == Severity::Error
}

/// A state that does nothing and leads nowhere: what an absorbed state
/// leaves behind.
pub open spec fn is_dead(st: State) -> bool {
    &&& st.stmts@.len() == 0
    &&& st.barrier is None
    &&& st.mem_read is None
    &&& st.post@.len() == 0
    &&& st.next matches Next::Straight(t) && t == Target::Exit
    &&& !st.pinned
}

proof fn lemma_next_ok_grows(nx: Next<Expr, MatchOn>, n: nat, m: nat)
    requires
        next_ok(nx, n),
        n <= m,
    ensures
        next_ok(nx, m),
{
    match nx {
        Next::Switch { targets, .. } => {
            assert forall|k: int| 0 <= k < targets@.len() implies target_ok(#[trigger] targets@[k], m) by {
                assert(target_ok(targets@[k], n));
            }
        },
        _ => {},
    }
}

proof fn lemma_push_keeps_targets(states: Seq<State>, st: State)
    requires
        targets_below(states),
        next_ok(st.next, states.len() + 1),
    ensures
        targets_below(states.push(st)),
{
    let ns = states.push(st);
    assert forall|i: int| 0 <= i < ns.len() implies next_ok(#[trigger] ns[i].next, ns.len()) by {
        if i < states.len() {
            assert(ns[i] == states[i]);
            lemma_next_ok_grows(states[i].next, states.len(), ns.len());
        }
    }
}

impl State {
    /// A state that does nothing and leads nowhere.
    fn dead() -> (st: State)
        ensures
            is_dead(st),
    {
        State {
            stmts: Vec::new(),
            barrier: None,
            mem_read: None,
            post: Vec::new(),
            next: Next::Straight(Target::Exit),
            pinned: false,
        }
    }

    /// A state that exists only to hold a branch: no wait of its own, so a
    /// barrier state right before it can take its work and its branch and
    /// save the cycle.
    fn is_bare_branch(&self) -> (r: bool)
        ensures
            r == (!self.pinned && self.barrier is None && (self.next is Branch || self.next is Switch)),
    {
        let forks = match &self.next {
            Next::Branch { .. } => true,
            Next::Switch { .. } => true,
            Next::Straight(_) => false,
        };
        !self.pinned && self.barrier.is_none() && forks
    }
}

/// Takes state `ix` out of the list, leaving a dead one in its place.
fn take_state(states: &mut Vec<State>, ix: usize) -> (st: State)
    requires
        ix < old(states)@.len(),
    ensures
        st == old(states)@[ix as int],
        final(states)@.len() == old(states)@.len(),
        is_dead(final(states)@[ix as int]),
        forall|j: int| 0 <= j < old(states)@.len() && j != ix ==> #[trigger] final(states)@[j] == old(states)@[j],
{
    states.push(State::dead());
    states.swap_remove(ix)
}

/// Puts `st` back as state `ix`.
fn put_state(states: &mut Vec<State>, ix: usize, st: State)
    requires
        ix < old(states)@.len(),
    ensures
        final(states)@ == old(states)@.update(ix as int, st),
{
    states.push(st);
    let _gone = states.swap_remove(ix);
    proof {
        assert(states@ =~= old(states)@.update(ix as int, st));
    }
}

/// The position of `x` in `v`, if it is there.
fn find_name(v: &Vec<String>, x: &String) -> (r: Option<usize>)
    ensures
        match r {
            Some(i) => i < v@.len() && v@[i as int]@ == x@,
            None => !names(v@).contains(x@),
        },
{
    let mut k: usize = 0;
    while k < v.len()
        invariant
            k <= v@.len(),
            forall|j: int| 0 <= j < k ==> v@[j]@ != x@,
        decreases v@.len() - k,
    {
        if v[k] == *x {
            return Some(k);
        }
        k = k + 1;
    }
    proof {
        if names(v@).contains(x@) {
            let j = choose|j: int| 0 <= j < names(v@).len() && names(v@)[j] == x@;
            assert(v@[j]@ == x@);
        }
    }
    None
}

/// The position of port `x`, and whether it is an input.
fn find_port(v: &Vec<(String, bool)>, x: &String) -> (r: Option<(usize, bool)>)
    ensures
        match r {
            Some((i, inp)) => i < v@.len() && v@[i as int].0@ == x@ && v@[i as int].1 == inp,
            None => forall|j: int| 0 <= j < v@.len() ==> (#[trigger] v@[j]).0@ != x@,
        },
{
    let mut k: usize = 0;
    while k < v.len()
        invariant
            k <= v@.len(),
            forall|j: int| 0 <= j < k ==> (#[trigger] v@[j]).0@ != x@,
        decreases v@.len() - k,
    {
        if v[k].0 == *x {
            return Some((k, v[k].1));
        }
        k = k + 1;
    }
    None
}

/// Repoints every jump to state `from`, in every state, at `to`.
fn retarget_states(states: &mut Vec<State>, from: usize, to: Target)
    requires
        targets_below(old(states)@),
        target_ok(to, old(states)@.len()),
    ensures
        final(states)@.len() == old(states)@.len(),
        targets_below(final(states)@),
        forall|i: int| 0 <= i < old(states)@.len() ==> retargeted(#[trigger] final(states)@[i].next, old(states)@[i].next, from, to),
        forall|i: int| 0 <= i < old(states)@.len() ==> (#[trigger] final(states)@[i]).barrier == old(states)@[i].barrier
            && final(states)@[i].mem_read == old(states)@[i].mem_read,
{
    let n = states.len();
    let mut i: usize = 0;
    while i < n
        invariant
            i <= n,
            n == old(states)@.len(),
            states@.len() == n,
            target_ok(to, n as nat),
            forall|k: int| 0 <= k < n ==> next_ok(#[trigger] states@[k].next, n as nat),
            forall|k: int| 0 <= k < i ==> retargeted(#[trigger] states@[k].next, old(states)@[k].next, from, to),
            forall|k: int| i <= k < n ==> #[trigger] states@[k] == old(states)@[k],
            forall|k: int| 0 <= k < n ==> (#[trigger] states@[k]).barrier == old(states)@[k].barrier
                && states@[k].mem_read == old(states)@[k].mem_read,
        decreases n - i,
    {
        let mut st = take_state(states, i);
        let ghost was = st.next;
        let mut one: Vec<Next<Expr, MatchOn>> = Vec::new();
        let mut nx = Next::Straight(Target::Exit);
        std::mem::swap(&mut nx, &mut st.next);
        one.push(nx);
        retarget(&mut one, from, to);
        let mut got = one.pop().unwrap();
        let ghost g = got;
        proof {
            assert(retargeted(g, was, from, to));
            assert(next_ok(was, n as nat));
            match (g, was) {
                (Next::Switch { targets: ts1, .. }, Next::Switch { targets: ts2, .. }) => {
                    assert forall|k: int| 0 <= k < ts1@.len() implies target_ok(#[trigger] ts1@[k], n as nat) by {
                        assert(ts1@[k] == swapped(ts2@[k], from, to));
                        assert(target_ok(ts2@[k], n as nat));
                    }
                },
                _ => {},
            }
            assert(next_ok(g, n as nat));
        }
        std::mem::swap(&mut got, &mut st.next);
        put_state(states, i, st);
        i = i + 1;
    }
}


proof fn lemma_extends_trans(a: Seq<Diag>, b: Seq<Diag>, c: Seq<Diag>)
    requires
        extends(a, b),
        extends(b, c),
    ensures
        extends(a, c),
{
    assert forall|k: int| 0 <= k < a.len() implies #[trigger] c[k] == a[k] by {
        assert(c[k] == b[k]);
    }
}

proof fn lemma_error_earlier(ds: Seq<Diag>, a: int, b: int)
    requires
        error_from(ds, a),
        b <= a,
    ensures
        error_from(ds, b),
{
    let k = choose|k: int| a <= k < ds.len() && (#[trigger] ds[k]).severity == Severity::Error;
    assert(b <= k < ds.len() && ds[k].severity == Severity::Error);
}

proof fn lemma_take_keeps_targets(before: Seq<State>, after: Seq<State>, ix: int)
    requires
        targets_below(before),
        after.len() == before.len(),
        0 <= ix < after.len(),
        is_dead(after[ix]),
        forall|j: int| 0 <= j < before.len() && j != ix ==> #[trigger] after[j] == before[j],
    ensures
        targets_below(after),
{
    assert forall|i: int| 0 <= i < after.len() implies next_ok(#[trigger] after[i].next, after.len()) by {
        if i != ix {
            assert(after[i] == before[i]);
        }
    }
}

/// Records an error at `at`.
pub(crate) fn fail(sink: &mut DiagSink, at: Span, msg: String)
    ensures
        *final(sink).map == *old(sink).map,
        extends(old(sink).diags@, final(sink).diags@),
        error_from(final(sink).diags@, old(sink).diags@.len() as int),
{
    let ghost d0 = sink.diags@;
    sink.err_span(at, msg);
    proof {
        let ds = sink.diags@;
        assert(ds[ds.len() - 1].severity == Severity::Error);
        assert forall|k: int| 0 <= k < d0.len() implies #[trigger] ds[k] == d0[k] by {
            assert(ds.drop_last()[k] == ds[k]);
        }
    }
}

/// "`name` rest".
fn quoted(name: &String, rest: &str) -> (r: String)
{
    let mut msg = String::from_str("`");
    msg.append(name.as_str());
    msg.append(rest);
    msg
}

/// What a statement turned out to be when scheduling looked for one kind.
enum Taken<T> {
    /// It was one, and this is what it held.
    Is(T),
    /// It was not, and here it is back.
    Not(Stmt),
    /// It was meant as one but names something wrong; that was reported.
    Failed,
}

fn is_recv_builtin(e: &Expr) -> (r: bool)
    ensures
        r == (*e matches Expr::Builtin(b) && b is BlockingReceive),
{
    match e {
        Expr::Builtin(Builtin::BlockingReceive) => true,
        _ => false,
    }
}

fn is_send_builtin(e: &Expr) -> (r: bool)
    ensures
        r == (*e matches Expr::Builtin(b) && b is BlockingSend),
{
    match e {
        Expr::Builtin(Builtin::BlockingSend) => true,
        _ => false,
    }
}

/// The name an expression is, if it is a bare name.
fn ref_name(e: &Expr) -> (r: Option<String>)
    ensures
        match r {
            Some(n) => *e matches Expr::Ref(m) && m@ == n@,
            None => !(*e is Ref),
        },
{
    match e {
        Expr::Ref(n) => Some(n.clone()),
        _ => None,
    }
}

/// The channel of `let x = @rcv(p)`.
fn recv_channel(names: &Vec<String>, value: &Option<Expr>) -> (r: Option<String>)
    ensures
        r is Some ==> names@.len() == 1,
{
    if names.len() != 1 {
        return None;
    }
    match value {
        Some(Expr::Call { base, args }) => {
            if args.len() == 1 && is_recv_builtin(base) {
                ref_name(&args[0])
            } else {
                None
            }
        },
        _ => None,
    }
}

/// The channel of `@send(p, v)`.
fn send_channel(base: &Expr, args: &Vec<Expr>) -> (r: Option<String>)
    ensures
        r is Some ==> args@.len() == 2,
{
    if args.len() == 2 && is_send_builtin(base) {
        ref_name(&args[0])
    } else {
        None
    }
}

/// The barrier a statement is: a receive binding one name, or a send, on a
/// pipe or a `port` of the process.
fn take_barrier(stmt: Stmt, ch: &Channels, at: Span, sink: &mut DiagSink) -> (r: Taken<Barrier>)
    ensures
        *final(sink).map == *old(sink).map,
        extends(old(sink).diags@, final(sink).diags@),
        r matches Taken::Not(s) ==> s == stmt && final(sink).diags@ == old(sink).diags@,
        r is Failed ==> error_from(final(sink).diags@, old(sink).diags@.len() as int),
{
    let (pipe, bind, value, mutable) = match stmt {
        Stmt::Let { names, mutable, value } => match recv_channel(&names, &value) {
            Some(p) => (p, Some(names[0].clone()), None, mutable),
            None => {
                return Taken::Not(Stmt::Let { names, mutable, value });
            },
        },
        Stmt::Call { base, args } => match send_channel(&base, &args) {
            Some(p) => {
                let mut args = args;
                let v = args.remove(1);
                (p, None, Some(v), false)
            },
            None => {
                return Taken::Not(Stmt::Call { base, args });
            },
        },
        other => {
            return Taken::Not(other);
        },
    };
    let is_recv = bind.is_some();
    match find_name(&ch.pipes, &pipe) {
        Some(ix) => {
            return Taken::Is(Barrier { on: BarrierOn::Pipe(ix), is_recv, bind, value, mutable });
        },
        None => {},
    }
    match find_port(&ch.ports, &pipe) {
        Some((ix, is_input)) => {
            if is_recv != is_input {
                let what = if is_input { "` can only be received from" } else { "` can only be sent to" };
                fail(sink, at, quoted(&pipe, what));
                Taken::Failed
            } else {
                Taken::Is(Barrier { on: BarrierOn::Port(ix), is_recv, bind, value, mutable })
            }
        },
        None => {
            fail(sink, at, quoted(&pipe, "` is not a pipe or `port` of this process"));
            Taken::Failed
        },
    }
}

/// The memory `let x = mem[addr]` reads, when `mem` is a block RAM.
fn sync_read_mem(names: &Vec<String>, mutable: bool, value: &Option<Expr>, ch: &Channels) -> (r: Option<usize>)
    ensures
        r is Some ==> names@.len() == 1,
{
    if mutable || names.len() != 1 {
        return None;
    }
    match value {
        Some(Expr::Index { base, .. }) => match ref_name(base) {
            Some(m) => find_name(&ch.sync_mems, &m),
            None => None,
        },
        _ => None,
    }
}

/// Whether a statement is a block RAM read.
fn is_sync_read(stmt: &Stmt, ch: &Channels) -> (r: bool)
{
    match stmt {
        Stmt::Let { names, mutable, value } => sync_read_mem(names, *mutable, value, ch).is_some(),
        _ => false,
    }
}

/// The block RAM read a statement is.
fn take_sync_read(stmt: Stmt, ch: &Channels) -> (r: Result<MemRead, Stmt>)
    ensures
        r matches Err(s) ==> s == stmt,
{
    match stmt {
        Stmt::Let { names, mutable, value } => match sync_read_mem(&names, mutable, &value, ch) {
            Some(ix) => match value {
                Some(Expr::Index { base, index }) => Ok(MemRead { mem_ix: ix, addr: *index, bind: names[0].clone() }),
                other => Err(Stmt::Let { names, mutable, value: other }),
            },
            None => Err(Stmt::Let { names, mutable, value }),
        },
        other => Err(other),
    }
}

fn walk_needs_states(stmt: &Stmt, ch: &Channels) -> (r: bool)
    decreases *stmt, 0nat,
{
    match stmt {
        Stmt::Break => true,
        Stmt::Loop { .. } => true,
        Stmt::If { then_arm, else_arm, .. } => arm_needs_states(then_arm, ch) || match else_arm {
            Some(e) => arm_needs_states(e, ch),
            None => false,
        },
        Stmt::Match { arms, .. } => arms_need_states(arms, 0, ch),
        _ => is_sync_read(stmt, ch),
    }
}

fn arm_needs_states(e: &Expr, ch: &Channels) -> (r: bool)
    decreases *e, 0nat,
{
    match e {
        Expr::Block(ss) => stmts_need_states(ss, 0, ch),
        _ => false,
    }
}

fn stmts_need_states(ss: &Vec<Stmt>, i: usize, ch: &Channels) -> (r: bool)
    decreases ss@, ss@.len() - i,
{
    if i < ss.len() {
        walk_needs_states(&ss[i], ch) || stmts_need_states(ss, i + 1, ch)
    } else {
        false
    }
}

fn arms_need_states(es: &Vec<Expr>, i: usize, ch: &Channels) -> (r: bool)
    decreases es@, es@.len() - i,
{
    if i < es.len() {
        arm_needs_states(&es[i], ch) || arms_need_states(es, i + 1, ch)
    } else {
        false
    }
}

/// Whether a statement has to be scheduled rather than muxed: it blocks, or
/// it breaks, loops or reads a block RAM somewhere inside.
fn needs_states(stmt: &Stmt, ch: &Channels) -> (r: bool)
    ensures
        stmt_blocks(*stmt) ==> r,
{
    contains_barrier(stmt) || walk_needs_states(stmt, ch)
}

/// Places statements that have no state of their own yet.
///
/// They run before whatever `target` is, so they join that state --
/// combinational work costs no cycle wherever it sits. Unless `target` is
/// `cont`, which a sibling arm shares: putting them there would run them on
/// its path too, so those get a state of their own and the cycle that costs.
/// `pending` holds them last first.
fn place_pending(pending: &mut Vec<Stmt>, target: Target, cont: Target, states: &mut Vec<State>) -> (r: Target)
    requires
        targets_below(old(states)@),
        target_ok(target, old(states)@.len()),
    ensures
        final(pending)@.len() == 0,
        final(states)@.len() >= old(states)@.len(),
        targets_below(final(states)@),
        target_ok(r, final(states)@.len()),
        old(pending)@.len() == 0 ==> r == target && final(states)@ == old(states)@,
        r == target || (r matches Target::State(j) && old(states)@.len() <= j < final(states)@.len()),
{
    if pending.len() == 0 {
        return target;
    }
    let mut leading: Vec<Stmt> = Vec::new();
    while pending.len() > 0
        invariant
            true,
        decreases pending@.len(),
    {
        let st = pending.pop().unwrap();
        leading.push(st);
    }
    match target {
        Target::State(ix) => {
            if target != cont && !states[ix].pinned {
                let ghost s0 = states@;
                let mut st = take_state(states, ix);
                leading.append(&mut st.stmts);
                st.stmts = leading;
                let ghost s1 = states@;
                put_state(states, ix, st);
                proof {
                    assert forall|i: int| 0 <= i < states@.len() implies next_ok(#[trigger] states@[i].next, states@.len()) by {
                        if i != ix {
                            assert(states@[i] == s0[i]);
                        } else {
                            assert(states@[i].next == s0[i].next);
                        }
                    }
                }
                return Target::State(ix);
            }
        },
        _ => {},
    }
    let st = State {
        stmts: leading,
        barrier: None,
        mem_read: None,
        post: Vec::new(),
        next: Next::Straight(target),
        pinned: false,
    };
    proof {
        lemma_push_keeps_targets(states@, st);
    }
    states.push(st);
    Target::State(states.len() - 1)
}



/// `t` is where a block scheduled against `cont` and `brk` is entered: one
/// of those two, or a state numbered from `lo` to `hi`, which scheduling the
/// block added.
pub open spec fn entry_in(t: Target, cont: Target, brk: Target, lo: int, hi: int) -> bool {
    t == cont || t == brk || (t matches Target::State(j) && lo <= j < hi)
}

/// An arm of a `match` with statements to schedule.
pub open spec fn has_stmts(arm: Expr) -> bool {
    arm matches Expr::Block(v) && v@.len() > 0
}

/// `ts` are the entries of the arms of a `match` that rejoin at `join`, one
/// per arm and in arm order: scheduling arm `k` added the states numbered
/// from `bounds[k]` to `bounds[k + 1]`, and arm `k` is entered at `join`, at
/// `brk`, or at one of those. An arm with no statements adds none and goes
/// straight to `join`.
pub open spec fn arm_entries(arms: Seq<Expr>, ts: Seq<Target>, join: Target, brk: Target, bounds: Seq<nat>) -> bool {
    &&& ts.len() == arms.len()
    &&& bounds.len() == arms.len() + 1
    &&& forall|k: int| 0 <= k < arms.len() ==> #[trigger] bounds[k] <= bounds[k + 1]
    &&& forall|k: int| 0 <= k < arms.len() ==> entry_in(#[trigger] ts[k], join, brk, bounds[k] as int, bounds[k + 1] as int)
    &&& forall|k: int| 0 <= k < arms.len() && !has_stmts(#[trigger] arms[k]) ==> ts[k] == join && bounds[k] == bounds[k + 1]
}

proof fn lemma_bounds_grow(bounds: Seq<nat>, i: int, j: int)
    requires
        0 <= i <= j < bounds.len(),
        forall|k: int| 0 <= k < bounds.len() - 1 ==> #[trigger] bounds[k] <= bounds[k + 1],
    ensures
        bounds[i] <= bounds[j],
    decreases j - i,
{
    if i < j {
        lemma_bounds_grow(bounds, i, j - 1);
        assert(bounds[j - 1] <= bounds[j]);
    }
}

/// The targets of a `match` that holds states follow its arms: an arm with
/// no statements goes straight to where the arms join, and an arm entered at
/// a state it added is entered before every later arm's own states -- so no
/// two arms share an entry they made, and arm `k` is never entered at a state
/// another arm's statements start.
pub proof fn law_switch_targets_follow_the_arms(
    arms: Seq<Expr>,
    ts: Seq<Target>,
    join: Target,
    brk: Target,
    bounds: Seq<nat>,
    k1: int,
    k2: int,
)
    requires
        arm_entries(arms, ts, join, brk, bounds),
        target_ok(join, bounds[0]),
        target_ok(brk, bounds[0]),
        0 <= k1 < k2 < arms.len(),
    ensures
        !has_stmts(arms[k1]) ==> ts[k1] == join,
        (ts[k1] matches Target::State(a) && a >= bounds[0]) && (ts[k2] matches Target::State(b) && b >= bounds[0])
            ==> ts[k1]->0 < ts[k2]->0,
{
    assert(entry_in(ts[k1], join, brk, bounds[k1] as int, bounds[k1 + 1] as int));
    assert(entry_in(ts[k2], join, brk, bounds[k2] as int, bounds[k2 + 1] as int));
    lemma_bounds_grow(bounds, 0, k1);
    lemma_bounds_grow(bounds, k1 + 1, k2);
}

/// Schedules the arms of a `match`, in order, each against `join`, where
/// the arms rejoin, then adds the state that decides between them: its k-th
/// target is where arm k is entered. Answers that state.
fn schedule_arms(
    scrutinees: Vec<Expr>,
    cases: Vec<MatchCase>,
    arms: Vec<Expr>,
    join: Target,
    brk: Target,
    states: &mut Vec<State>,
    ch: &Channels,
    at: Span,
    sink: &mut DiagSink,
) -> (r: Option<Target>)
    requires
        targets_below(old(states)@),
        target_ok(join, old(states)@.len()),
        target_ok(brk, old(states)@.len()),
    ensures
        final(states)@.len() >= old(states)@.len(),
        targets_below(final(states)@),
        *final(sink).map == *old(sink).map,
        extends(old(sink).diags@, final(sink).diags@),
        match r {
            Some(t) => {
                let n = final(states)@.len();
                let sw = final(states)@.last();
                &&& n > old(states)@.len()
                &&& t matches Target::State(j) && j + 1 == n
                &&& sw.stmts@.len() == 0 && sw.post@.len() == 0 && sw.barrier is None && sw.mem_read is None && !sw.pinned
                &&& sw.next matches Next::Switch { stmt, targets } && stmt.scrutinees@ == scrutinees@ && stmt.cases@ == cases@
                    && exists|bounds: Seq<nat>| arm_entries(arms@, targets@, join, brk, bounds) && bounds[0] == old(states)@.len()
                        && bounds[arms@.len() as int] == n - 1
            },
            None => error_from(final(sink).diags@, old(sink).diags@.len() as int),
        },
    decreases arms@,
{
    let ghost a0 = arms@;
    let ghost d0 = sink.diags@;
    let ghost n0 = states@.len();
    let ghost mut bounds: Seq<nat> = seq![n0];
    let mut arms = arms;
    let mut targets: Vec<Target> = Vec::new();
    #[verifier::loop_isolation(false)]
    while arms.len() > 0
        invariant
            targets@.len() + arms@.len() == a0.len(),
            forall|j: int| 0 <= j < arms@.len() ==> #[trigger] arms@[j] == a0[targets@.len() + j],
            forall|j: int| 0 <= j < targets@.len() ==> target_ok(#[trigger] targets@[j], states@.len()),
            bounds.len() == targets@.len() + 1,
            bounds[0] == n0,
            bounds[targets@.len() as int] == states@.len(),
            forall|k: int| 0 <= k < targets@.len() ==> #[trigger] bounds[k] <= bounds[k + 1],
            forall|k: int| 0 <= k < targets@.len() ==> entry_in(#[trigger] targets@[k], join, brk, bounds[k] as int, bounds[k + 1] as int),
            forall|k: int| 0 <= k < targets@.len() && !has_stmts(#[trigger] a0[k]) ==> targets@[k] == join && bounds[k] == bounds[k + 1],
            targets_below(states@),
            n0 == old(states)@.len(),
            states@.len() >= n0,
            target_ok(join, states@.len()),
            target_ok(brk, states@.len()),
            *sink.map == *old(sink).map,
            d0 == old(sink).diags@,
            extends(d0, sink.diags@),
        decreases arms@.len(),
    {
        let ghost k = targets@.len() as int;
        let ghost a1 = arms@;
        let arm = arms.remove(0);
        assert(arm == a0[k]);
        assert(forall|j: int| 0 <= j < arms@.len() ==> arms@[j] == a1[j + 1]);
        let ghost s0 = states@.len();
        let t = match arm {
            Expr::Block(v) => {
                assert(decreases_to!(a0 => v@));
                let ghost dn = sink.diags@;
                match schedule(v, join, brk, states, ch, at, sink) {
                    Some(t) => {
                        proof { lemma_extends_trans(d0, dn, sink.diags@); }
                        t
                    },
                    None => {
                        proof { lemma_extends_trans(d0, dn, sink.diags@); lemma_error_earlier(sink.diags@, dn.len() as int, d0.len() as int); }
                        return None;
                    },
                }
            },
            _ => join,
        };
        proof {
            bounds = bounds.push(states@.len());
        }
        targets.push(t);
    }
    proof {
        assert(arm_entries(a0, targets@, join, brk, bounds));
    }
    let ghost ts = targets@;
    let ghost n1 = states@.len();
    let st = State {
        stmts: Vec::new(),
        barrier: None,
        mem_read: None,
        post: Vec::new(),
        next: Next::Switch { stmt: MatchOn { scrutinees, cases }, targets },
        pinned: false,
    };
    proof {
        lemma_push_keeps_targets(states@, st);
    }
    states.push(st);
    proof {
        assert(states@.last() == st);
        assert(arm_entries(a0, ts, join, brk, bounds) && bounds[0] == n0 && bounds[a0.len() as int] == n1);
    }
    Some(Target::State(states.len() - 1))
}

/// Builds the state graph for one block of statements.
///
/// Walks backwards, so the continuation of every statement is already known
/// by the time that statement needs it -- which is what lets an arm rejoin
/// the main line without a fixup pass. `cont` is where control goes when the
/// block runs off its end; the returned target is where control enters it.
/// `brk` is where `break` goes: the terminal state at the top of a process,
/// and the statement after the loop inside a nested one.
///
/// States are pushed in reverse order and renumbered afterwards. `at` is where
/// a statement that cannot be scheduled is reported.
fn schedule(
    stmts: Vec<Stmt>,
    cont: Target,
    brk: Target,
    states: &mut Vec<State>,
    ch: &Channels,
    at: Span,
    sink: &mut DiagSink,
) -> (r: Option<Target>)
    requires
        targets_below(old(states)@),
        target_ok(cont, old(states)@.len()),
        target_ok(brk, old(states)@.len()),
    ensures
        final(states)@.len() >= old(states)@.len(),
        targets_below(final(states)@),
        *final(sink).map == *old(sink).map,
        extends(old(sink).diags@, final(sink).diags@),
        match r {
            Some(t) => target_ok(t, final(states)@.len()),
            None => error_from(final(sink).diags@, old(sink).diags@.len() as int),
        },
        r matches Some(t) ==> entry_in(t, cont, brk, old(states)@.len() as int, final(states)@.len() as int),
        stmts@.len() == 0 ==> r == Some(cont) && final(states)@ == old(states)@ && final(sink).diags@ == old(sink).diags@,
    decreases stmts@,
{
    let ghost orig = stmts@;
    let ghost d0 = sink.diags@;
    let ghost n0 = states@.len();
    let mut stmts = stmts;
    let mut target = cont;
    // Collected last first, flipped when placed.
    let mut pending: Vec<Stmt> = Vec::new();
    #[verifier::loop_isolation(false)]
    while stmts.len() > 0
        invariant
            stmts@.len() <= orig.len(),
            forall|j: int| 0 <= j < stmts@.len() ==> #[trigger] stmts@[j] == orig[j],
            targets_below(states@),
            n0 == old(states)@.len(),
            states@.len() >= n0,
            entry_in(target, cont, brk, n0 as int, states@.len() as int),
            orig.len() == 0 ==> target == cont && states@ == old(states)@ && sink.diags@ == d0 && pending@.len() == 0,
            target_ok(target, states@.len()),
            target_ok(cont, states@.len()),
            target_ok(brk, states@.len()),
            *sink.map == *old(sink).map,
            d0 == old(sink).diags@,
            extends(d0, sink.diags@),
        decreases stmts@.len(),
    {
        let ghost k = stmts@.len() - 1;
        let stmt = stmts.pop().unwrap();
        let ghost gs = stmt;
        assert(gs == orig[k]);
        assert(decreases_to!(orig => orig[k]));
        let ghost dm = sink.diags@;
        match take_barrier(stmt, ch, at, sink) {
            Taken::Failed => {
                proof {
                    lemma_extends_trans(d0, dm, sink.diags@);
                    lemma_error_earlier(sink.diags@, dm.len() as int, d0.len() as int);
                }
                return None;
            },
            Taken::Is(barrier) => {
                proof { lemma_extends_trans(d0, dm, sink.diags@); }
                let mut post: Vec<Stmt> = Vec::new();
                while pending.len() > 0
                    invariant
                        true,
                    decreases pending@.len(),
                {
                    let p = pending.pop().unwrap();
                    post.push(p);
                }
                // A branch state sitting right after this barrier has no wait
                // of its own, so its work belongs in this state's post scope
                // and its branch becomes this state's: `let cmd = @rcv(ctl)`
                // then `if cmd ..` costs one cycle rather than two.
                let mut next = Next::Straight(target);
                match target {
                    Target::State(ix) => {
                        if states[ix].is_bare_branch() {
                            let ghost s0 = states@;
                            let absorbed = take_state(states, ix);
                            proof { lemma_take_keeps_targets(s0, states@, ix as int); }
                            let State { stmts: mut moved, next: nx, .. } = absorbed;
                            post.append(&mut moved);
                            next = nx;
                        }
                    },
                    _ => {},
                }
                let st = State { stmts: Vec::new(), barrier: Some(barrier), mem_read: None, post, next, pinned: false };
                proof {
                    lemma_next_ok_grows(st.next, states@.len(), states@.len() + 1);
                    lemma_push_keeps_targets(states@, st);
                }
                states.push(st);
                target = Target::State(states.len() - 1);
            },
            Taken::Not(stmt) => {
                match take_sync_read(stmt, ch) {
                    Ok(read) => {
                        // A read state has no `post` and absorbs no branch: what
                        // it binds is the memory's output register, which holds
                        // the value only from the next cycle on, so everything
                        // after the read goes to the next state.
                        target = place_pending(&mut pending, target, cont, states);
                        let st = State {
                            stmts: Vec::new(),
                            barrier: None,
                            mem_read: Some(read),
                            post: Vec::new(),
                            next: Next::Straight(target),
                            pinned: false,
                        };
                        proof { lemma_push_keeps_targets(states@, st); }
                        states.push(st);
                        target = Target::State(states.len() - 1);
                    },
                    Err(stmt) => {
                        let ns = needs_states(&stmt, ch);
                        match stmt {
                            Stmt::If { cond, then_arm, else_arm } if ns => {
                                if expr_contains_barrier(&cond) {
                                    fail(sink, at, String::from_str("an `if` condition cannot contain a blocking `@rcv` or `@send`"));
                                    proof { lemma_extends_trans(d0, dm, sink.diags@); lemma_error_earlier(sink.diags@, dm.len() as int, d0.len() as int); }
                                    return None;
                                }
                                // These statements follow the branch: break must
                                // bypass them.
                                target = place_pending(&mut pending, target, cont, states);
                                let then_t = match then_arm {
                                    Expr::Block(v) => {
                                        assert(decreases_to!(orig => v@));
                                        let ghost dn = sink.diags@;
                                        match schedule(v, target, brk, states, ch, at, sink) {
                                            Some(t) => {
                                                proof { lemma_extends_trans(d0, dn, sink.diags@); }
                                                t
                                            },
                                            None => {
                                                proof { lemma_extends_trans(d0, dn, sink.diags@); lemma_error_earlier(sink.diags@, dn.len() as int, d0.len() as int); }
                                                return None;
                                            },
                                        }
                                    },
                                    _ => {
                                        fail(sink, at, String::from_str("expected statements in this branch"));
                                        proof { lemma_extends_trans(d0, dm, sink.diags@); lemma_error_earlier(sink.diags@, dm.len() as int, d0.len() as int); }
                                        return None;
                                    },
                                };
                                let else_t = match else_arm {
                                    None => target,
                                    Some(Expr::Block(v)) => {
                                        assert(decreases_to!(orig => v@));
                                        let ghost dn = sink.diags@;
                                        match schedule(v, target, brk, states, ch, at, sink) {
                                            Some(t) => {
                                                proof { lemma_extends_trans(d0, dn, sink.diags@); }
                                                t
                                            },
                                            None => {
                                                proof { lemma_extends_trans(d0, dn, sink.diags@); lemma_error_earlier(sink.diags@, dn.len() as int, d0.len() as int); }
                                                return None;
                                            },
                                        }
                                    },
                                    Some(_) => {
                                        let ghost dn = sink.diags@;
                                        fail(sink, at, String::from_str("expected statements in this branch"));
                                        proof { lemma_extends_trans(d0, dn, sink.diags@); lemma_error_earlier(sink.diags@, dn.len() as int, d0.len() as int); }
                                        return None;
                                    },
                                };
                                let st = State {
                                    stmts: Vec::new(),
                                    barrier: None,
                                    mem_read: None,
                                    post: Vec::new(),
                                    next: Next::Branch { cond, then_t, else_t },
                                    pinned: false,
                                };
                                proof { lemma_push_keeps_targets(states@, st); }
                                states.push(st);
                                target = Target::State(states.len() - 1);
                            },
                            Stmt::Match { scrutinees, cases, arms } if ns => {
                                if exprs_contain_barrier(&scrutinees, 0) {
                                    fail(sink, at, String::from_str("a `match` scrutinee cannot contain a blocking `@rcv` or `@send`"));
                                    proof { lemma_extends_trans(d0, dm, sink.diags@); lemma_error_earlier(sink.diags@, dm.len() as int, d0.len() as int); }
                                    return None;
                                }
                                // Every arm rejoins at whatever followed the
                                // `match`; an arm with no statements falls
                                // straight through.
                                target = place_pending(&mut pending, target, cont, states);
                                assert(decreases_to!(orig => arms@));
                                let ghost dn = sink.diags@;
                                let ghost sn = states@.len();
                                match schedule_arms(scrutinees, cases, arms, target, brk, states, ch, at, sink) {
                                    Some(t) => {
                                        proof {
                                            lemma_extends_trans(d0, dn, sink.diags@);
                                            assert(states@.len() > sn);
                                        }
                                        target = t;
                                    },
                                    None => {
                                        proof { lemma_extends_trans(d0, dn, sink.diags@); lemma_error_earlier(sink.diags@, dn.len() as int, d0.len() as int); }
                                        return None;
                                    },
                                }
                            },
                            Stmt::Break => {
                                // Everything after a `break` on this path is
                                // unreachable, and `pending` is exactly that.
                                pending.clear();
                                target = brk;
                            },
                            Stmt::Loop { body } => {
                                match body {
                                    Expr::Block(v) => {
                                        // Statements after the loop are reached
                                        // only by `break`: the loop's exit is
                                        // where they start.
                                        let after = place_pending(&mut pending, target, cont, states);
                                        // A placeholder for the top of the loop,
                                        // pointed at the entry once it is known.
                                        let ghost sd = states@;
                                        let dead = State::dead();
                                        proof { lemma_push_keeps_targets(states@, dead); }
                                        states.push(dead);
                                        let head = states.len() - 1;
                                        assert(decreases_to!(orig => v@));
                                        let ghost dn = sink.diags@;
                                        let entry = match schedule(v, Target::State(head), after, states, ch, at, sink) {
                                            Some(t) => t,
                                            None => {
                                                proof { lemma_extends_trans(d0, dn, sink.diags@); lemma_error_earlier(sink.diags@, dn.len() as int, d0.len() as int); }
                                                return None;
                                            },
                                        };
                                        proof { lemma_extends_trans(d0, dn, sink.diags@); }
                                        if entry == Target::State(head) {
                                            let ghost de = sink.diags@;
                                            fail(sink, at, String::from_str("a `loop` with no blocking operation would never advance"));
                                            proof { lemma_extends_trans(d0, de, sink.diags@); lemma_error_earlier(sink.diags@, de.len() as int, d0.len() as int); }
                                            return None;
                                        }
                                        retarget_states(states, head, entry);
                                        // The body jumps back here, so the state
                                        // before the loop must not absorb it.
                                        match entry {
                                            Target::State(ix) => {
                                                let ghost s0 = states@;
                                                let mut st = take_state(states, ix);
                                                st.pinned = true;
                                                put_state(states, ix, st);
                                                proof {
                                                    assert forall|i: int| 0 <= i < states@.len() implies next_ok(#[trigger] states@[i].next, states@.len()) by {
                                                        if i != ix {
                                                            assert(states@[i] == s0[i]);
                                                        } else {
                                                            assert(states@[i].next == s0[i].next);
                                                        }
                                                    }
                                                }
                                            },
                                            _ => {},
                                        }
                                        target = entry;
                                    },
                                    _ => {
                                        fail(sink, at, String::from_str("a `loop` needs an indented body"));
                                        proof { lemma_extends_trans(d0, dm, sink.diags@); lemma_error_earlier(sink.diags@, dm.len() as int, d0.len() as int); }
                                        return None;
                                    },
                                }
                            },
                            other => {
                                if ns {
                                    fail(sink, at, String::from_str(
                                        "a blocking `@rcv`, a `@send`, a `break` or a `bram` read needs a statement that can hold states: an `if`, a `match` or a `loop`",
                                    ));
                                    proof { lemma_extends_trans(d0, dm, sink.diags@); lemma_error_earlier(sink.diags@, dm.len() as int, d0.len() as int); }
                                    return None;
                                }
                                pending.push(other);
                            },
                        }
                    },
                }
            },
        }
    }
    if pending.len() == 0 {
        return Some(target);
    }
    // Statements before this block's first wait belong in the state that wait
    // created -- unless the entry is `cont`, which the other arm of a branch
    // shares; those get a state of their own.
    Some(place_pending(&mut pending, target, cont, states))
}


/// `nx` can jump to state `j`.
pub open spec fn jumps_to(nx: Next<Expr, MatchOn>, j: usize) -> bool {
    match nx {
        Next::Straight(t) => t == Target::State(j),
        Next::Branch { then_t, else_t, .. } => then_t == Target::State(j) || else_t == Target::State(j),
        Next::Switch { targets, .. } => targets@.contains(Target::State(j)),
    }
}

/// An earlier state of `s` jumps to state `k`.
pub open spec fn jumped_to_from_before(s: Seq<State>, k: usize) -> bool {
    exists|m: int| 0 <= m < k && #[trigger] jumps_to(s[m].next, k)
}

/// Every state but the first is jumped to by an earlier one, so each is
/// reached from state 0.
pub open spec fn reached_in_order(s: Seq<State>) -> bool {
    forall|k: usize| 0 < k < s.len() ==> #[trigger] jumped_to_from_before(s, k)
}

/// One of the first `upto` states visited, `order[p]` of `b`, jumps to `x`.
pub open spec fn has_parent(b: Seq<State>, order: Seq<usize>, upto: int, x: usize) -> bool {
    exists|p: int| 0 <= p < upto && #[trigger] jumps_to(b[order[p] as int].next, x)
}

proof fn lemma_has_parent_kept(b: Seq<State>, o0: Seq<usize>, o1: Seq<usize>, upto: int, x: usize)
    requires
        has_parent(b, o0, upto, x),
        upto <= o0.len() <= o1.len(),
        forall|p: int| 0 <= p < o0.len() ==> #[trigger] o1[p] == o0[p],
    ensures
        has_parent(b, o1, upto, x),
{
    let p = choose|p: int| 0 <= p < upto && #[trigger] jumps_to(b[o0[p] as int].next, x);
    assert(o1[p] == o0[p]);
    assert(jumps_to(b[o1[p] as int].next, x));
}

/// Some state of `s` waits on a channel or reads a block RAM.
pub open spec fn some_wait(s: Seq<State>) -> bool {
    exists|i: int| 0 <= i < s.len() && ((#[trigger] s[i]).barrier is Some || s[i].mem_read is Some)
}

proof fn lemma_distinct_below(order: Seq<usize>, n: nat)
    requires
        order.no_duplicates(),
        forall|i: int| 0 <= i < order.len() ==> (#[trigger] order[i]) < n,
    ensures
        order.len() <= n,
{
    let m = order.map_values(|x: usize| x as int);
    assert(m.no_duplicates()) by {
        assert forall|a: int, b: int| 0 <= a < m.len() && 0 <= b < m.len() && a != b implies m[a] != m[b] by {
            assert(order[a] != order[b]);
        }
    }
    m.unique_seq_to_set();
    let r = vstd::set_lib::set_int_range(0, n as int);
    assert forall|x: int| m.to_set().contains(x) implies r.contains(x) by {
        let i = choose|i: int| 0 <= i < m.len() && m[i] == x;
        assert(order[i] < n);
    }
    vstd::set_lib::lemma_int_range(0, n as int);
    vstd::set_lib::lemma_len_subset(m.to_set(), r);
}

/// `t` with a jump to state `j` sent to `new_ix[j]`.
fn remap_target(t: Target, new_ix: &Vec<usize>, m: usize) -> (r: Target)
    requires
        t matches Target::State(j) ==> j < new_ix@.len() && new_ix@[j as int] < m,
    ensures
        target_ok(r, m as nat),
        t matches Target::State(j) ==> r == Target::State(new_ix@[j as int]),
        !(t is State) ==> r == t,
{
    match t {
        Target::State(j) => Target::State(new_ix[j]),
        other => other,
    }
}

/// `nx` with every jump renumbered by `new_ix`.
fn remap_next(nx: Next<Expr, MatchOn>, new_ix: &Vec<usize>, m: usize) -> (r: Next<Expr, MatchOn>)
    requires
        forall|j: usize| #[trigger] jumps_to(nx, j) ==> j < new_ix@.len() && new_ix@[j as int] < m,
    ensures
        next_ok(r, m as nat),
        forall|j: usize| #[trigger] jumps_to(nx, j) ==> jumps_to(r, new_ix@[j as int]),
{
    match nx {
        Next::Straight(t) => {
            proof { if let Target::State(j) = t { assert(jumps_to(nx, j)); } }
            Next::Straight(remap_target(t, new_ix, m))
        },
        Next::Branch { cond, then_t, else_t } => {
            proof {
                if let Target::State(j) = then_t { assert(jumps_to(nx, j)); }
                if let Target::State(j) = else_t { assert(jumps_to(nx, j)); }
            }
            Next::Branch { cond, then_t: remap_target(then_t, new_ix, m), else_t: remap_target(else_t, new_ix, m) }
        },
        Next::Switch { stmt, targets } => {
            proof {
                assert forall|q: int| 0 <= q < targets@.len() implies (#[trigger] targets@[q] matches Target::State(j) ==> j
                    < new_ix@.len() && new_ix@[j as int] < m) by {
                    if let Target::State(j) = targets@[q] {
                        assert(targets@.contains(Target::State(j)));
                        assert(jumps_to(nx, j));
                    }
                }
            }
            let out = remap_targets(&targets, new_ix, m);
            proof {
                assert forall|j: usize| #[trigger] jumps_to(nx, j) implies out@.contains(Target::State(new_ix@[j as int])) by {
                    let q = choose|q: int| 0 <= q < targets@.len() && targets@[q] == Target::State(j);
                    assert(out@[q] == Target::State(new_ix@[j as int]));
                }
            }
            Next::Switch { stmt, targets: out }
        },
    }
}

/// Each of `targets` renumbered by `new_ix`.
fn remap_targets(targets: &Vec<Target>, new_ix: &Vec<usize>, m: usize) -> (out: Vec<Target>)
    requires
        forall|q: int| 0 <= q < targets@.len() ==> (#[trigger] targets@[q] matches Target::State(j) ==> j < new_ix@.len()
            && new_ix@[j as int] < m),
    ensures
        out@.len() == targets@.len(),
        forall|q: int| 0 <= q < out@.len() ==> target_ok(#[trigger] out@[q], m as nat),
        forall|q: int| 0 <= q < out@.len() ==> (#[trigger] targets@[q] matches Target::State(j) ==> out@[q] == Target::State(
            new_ix@[j as int],
        )),
{
    let mut out: Vec<Target> = Vec::new();
    let mut k: usize = 0;
    while k < targets.len()
        invariant
            k <= targets@.len(),
            out@.len() == k,
            forall|q: int| 0 <= q < k ==> target_ok(#[trigger] out@[q], m as nat),
            forall|q: int| 0 <= q < k ==> (#[trigger] targets@[q] matches Target::State(j) ==> out@[q] == Target::State(
                new_ix@[j as int],
            )),
            forall|q: int| 0 <= q < targets@.len() ==> (#[trigger] targets@[q] matches Target::State(j) ==> j < new_ix@.len()
                && new_ix@[j as int] < m),
        decreases targets@.len() - k,
    {
        let t = targets[k];
        out.push(remap_target(t, new_ix, m));
        k = k + 1;
    }
    out
}

/// Schedules a whole process body, renumbered so the entry state is 0.
///
/// Renumbering matters: the state register resets to 0, so the entry has to
/// be 0 for the machine to start where the program does. It also drops
/// whatever state absorbing a branch left unreachable: states are numbered
/// depth first from the entry, the `then` arm before the `else`. At the top of
/// a process `break` stops it, which is what `Halt` is.
///
/// Fails, with an error at `at`, on a body that never waits -- it would never
/// advance -- and on any statement `schedule` cannot place.
#[verifier::rlimit(80)]
#[verifier::spinoff_prover]
pub fn schedule_body(body: Vec<Stmt>, ch: &Channels, at: Span, sink: &mut DiagSink) -> (r: Option<Vec<State>>)
    ensures
        *final(sink).map == *old(sink).map,
        extends(old(sink).diags@, final(sink).diags@),
        match r {
            Some(s) => s@.len() > 0 && targets_below(s@) && reached_in_order(s@) && some_wait(s@),
            None => error_from(final(sink).diags@, old(sink).diags@.len() as int),
        },
{
    let ghost d0 = sink.diags@;
    let mut built: Vec<State> = Vec::new();
    let entry = match schedule(body, Target::Exit, Target::Halt, &mut built, ch, at, sink) {
        Some(t) => t,
        None => {
            return None;
        },
    };
    let entry = match entry {
        Target::State(ix) => ix,
        // No state at all: either nothing blocks, or the body is a bare
        // `break`, which is a process that stops before it starts.
        _ => {
            let ghost dm = sink.diags@;
            fail(sink, at, String::from_str("a `loop` with no blocking operation would never advance"));
            proof { lemma_extends_trans(d0, dm, sink.diags@); lemma_error_earlier(sink.diags@, dm.len() as int, d0.len() as int); }
            return None;
        },
    };
    let n = built.len();
    let ghost b0 = built@;
    // Depth first from the entry.
    let mut seen: Vec<bool> = Vec::new();
    while seen.len() < n
        invariant
            seen@.len() <= n,
            forall|q: int| 0 <= q < seen@.len() ==> !(#[trigger] seen@[q]),
        decreases n - seen@.len(),
    {
        seen.push(false);
    }
    let mut order: Vec<usize> = Vec::new();
    let mut stack: Vec<usize> = Vec::new();
    stack.push(entry);
    while stack.len() > 0
        invariant
            n == built@.len(),
            built@ == b0,
            targets_below(b0),
            seen@.len() == n,
            order@.len() <= n,
            order@.no_duplicates(),
            forall|p: int| 0 <= p < order@.len() ==> (#[trigger] order@[p]) < n && seen@[order@[p] as int],
            forall|x: int| 0 <= x < n && #[trigger] seen@[x] ==> order@.contains(x as usize),
            forall|q: int| 0 <= q < stack@.len() ==> (#[trigger] stack@[q]) < n,
            forall|p: int, j: usize| 0 <= p < order@.len() && #[trigger] jumps_to(b0[order@[p] as int].next, j) ==> seen@[j as int]
                || stack@.contains(j),
            order@.len() == 0 ==> stack@ == seq![entry],
            order@.len() > 0 ==> order@[0] == entry,
            order@.len() > 0 ==> forall|q: int| 0 <= q < stack@.len() ==> has_parent(b0, order@, order@.len() as int, #[trigger] stack@[q]),
            forall|k: int| 0 < k < order@.len() ==> has_parent(b0, order@, k, #[trigger] order@[k]),
        decreases n - order@.len(), stack@.len(),
    {
        let ghost st0 = stack@;
        let ix = stack.pop().unwrap();
        proof {
            assert(st0[st0.len() - 1] == ix);
            assert forall|j: usize| #[trigger] st0.contains(j) && j != ix implies stack@.contains(j) by {
                let q = choose|q: int| 0 <= q < st0.len() && st0[q] == j;
                assert(q < st0.len() - 1);
                assert(stack@[q] == j);
            }
        }
        if !seen[ix] {
            let ghost o0 = order@;
            seen.set(ix, true);
            order.push(ix);
            proof {
                assert(!o0.contains(ix)) by {
                    if o0.contains(ix) {
                        let p = choose|p: int| 0 <= p < o0.len() && o0[p] == ix;
                    }
                }
                assert(order@.no_duplicates()) by {
                    assert forall|a: int, b: int| 0 <= a < order@.len() && 0 <= b < order@.len() && a != b implies order@[a] != order@[b] by {
                        if a < o0.len() && b < o0.len() {
                            assert(order@[a] == o0[a] && order@[b] == o0[b]);
                        } else if a < o0.len() {
                            assert(order@[a] == o0[a]);
                            assert(o0.contains(order@[a]));
                        } else if b < o0.len() {
                            assert(order@[b] == o0[b]);
                            assert(o0.contains(order@[b]));
                        }
                    }
                }
                lemma_distinct_below(order@, n as nat);
                assert forall|x: int| 0 <= x < n && #[trigger] seen@[x] implies order@.contains(x as usize) by {
                    if x == ix {
                        assert(order@[order@.len() - 1] == ix);
                    } else {
                        assert(o0.contains(x as usize));
                        let p = choose|p: int| 0 <= p < o0.len() && o0[p] == x as usize;
                        assert(order@[p] == x as usize);
                    }
                }
            }
            let ghost s1 = stack@;
            match &built[ix].next {
                Next::Straight(t) => {
                    match t {
                        Target::State(j) => {
                            stack.push(*j);
                            proof { assert(stack@[stack@.len() - 1] == *j); }
                        },
                        _ => {},
                    }
                    proof {
                        assert forall|jj: usize| #[trigger] jumps_to(b0[ix as int].next, jj) implies stack@.contains(jj) by {
                            assert(stack@[stack@.len() - 1] == jj);
                        }
                        assert forall|q: int| s1.len() <= q < stack@.len() implies jumps_to(b0[ix as int].next, #[trigger] stack@[q]) by {}
                    }
                },
                // Pushed in reverse so the `then` arm is visited first.
                Next::Branch { then_t, else_t, .. } => {
                    match else_t {
                        Target::State(j) => stack.push(*j),
                        _ => {},
                    }
                    let ghost s2 = stack@;
                    match then_t {
                        Target::State(j) => stack.push(*j),
                        _ => {},
                    }
                    proof {
                        assert forall|jj: usize| #[trigger] jumps_to(b0[ix as int].next, jj) implies stack@.contains(jj) by {
                            if *then_t == Target::State(jj) {
                                assert(stack@[stack@.len() - 1] == jj);
                            } else {
                                assert(s2[s2.len() - 1] == jj);
                                assert(stack@[s2.len() - 1] == jj);
                            }
                        }
                        assert forall|q: int| s1.len() <= q < stack@.len() implies jumps_to(b0[ix as int].next, #[trigger] stack@[q]) by {
                            if q < s2.len() {
                                assert(stack@[q] == s2[q]);
                            }
                        }
                    }
                },
                Next::Switch { targets, .. } => {
                    let mut t = targets.len();
                    while t > 0
                        invariant
                            t <= targets@.len(),
                            stack@.len() >= s1.len(),
                            forall|q: int| 0 <= q < s1.len() ==> #[trigger] stack@[q] == s1[q],
                            forall|q: int| 0 <= q < stack@.len() ==> (#[trigger] stack@[q]) < n,
                            forall|q: int| t <= q < targets@.len() ==> (#[trigger] targets@[q] matches Target::State(j)
                                ==> stack@.contains(j)),
                            forall|q: int| 0 <= q < targets@.len() ==> target_ok(#[trigger] targets@[q], n as nat),
                            forall|q: int| s1.len() <= q < stack@.len() ==> targets@.contains(Target::State(#[trigger] stack@[q])),
                        decreases t,
                    {
                        t = t - 1;
                        let ghost s2 = stack@;
                        match targets[t] {
                            Target::State(j) => {
                                stack.push(j);
                                proof {
                                    assert(stack@[stack@.len() - 1] == j);
                                    assert(targets@[t as int] == Target::State(j));
                                    assert forall|q: int| s1.len() <= q < stack@.len() implies targets@.contains(Target::State(#[trigger] stack@[q])) by {
                                        if q < s2.len() {
                                            assert(stack@[q] == s2[q]);
                                        }
                                    }
                                    assert forall|q: int| t < q < targets@.len() implies (#[trigger] targets@[q] matches Target::State(jj)
                                        ==> stack@.contains(jj)) by {
                                        if let Target::State(jj) = targets@[q] {
                                            assert(s2.contains(jj));
                                            let w = choose|w: int| 0 <= w < s2.len() && s2[w] == jj;
                                            assert(stack@[w] == jj);
                                        }
                                    }
                                }
                            },
                            _ => {},
                        }
                    }
                    proof {
                        assert forall|jj: usize| #[trigger] jumps_to(b0[ix as int].next, jj) implies stack@.contains(jj) by {
                            let q = choose|q: int| 0 <= q < targets@.len() && targets@[q] == Target::State(jj);
                            assert(targets@[q] matches Target::State(x) ==> stack@.contains(x));
                        }
                        assert forall|q: int| s1.len() <= q < stack@.len() implies jumps_to(b0[ix as int].next, #[trigger] stack@[q]) by {
                            assert(targets@.contains(Target::State(stack@[q])));
                        }
                    }
                },
            }
            proof {
                assert(stack@.len() >= s1.len());
                assert(forall|q: int| 0 <= q < s1.len() ==> #[trigger] stack@[q] == s1[q]);
                let last = (order@.len() - 1) as int;
                assert(order@[last] == ix);
                assert forall|p: int| 0 <= p < o0.len() implies #[trigger] order@[p] == o0[p] by {}
                assert forall|q: int| 0 <= q < stack@.len() implies has_parent(b0, order@, order@.len() as int, #[trigger] stack@[q]) by {
                    if q < s1.len() {
                        assert(stack@[q] == st0[q]);
                        assert(o0.len() > 0);
                        assert(has_parent(b0, o0, o0.len() as int, st0[q]));
                        lemma_has_parent_kept(b0, o0, order@, o0.len() as int, st0[q]);
                        let p = choose|p: int| 0 <= p < o0.len() && #[trigger] jumps_to(b0[order@[p] as int].next, st0[q]);
                        assert(jumps_to(b0[order@[p] as int].next, stack@[q]));
                    } else {
                        assert(jumps_to(b0[order@[last] as int].next, stack@[q]));
                    }
                }
                assert forall|k: int| 0 < k < order@.len() implies has_parent(b0, order@, k, #[trigger] order@[k]) by {
                    if k < o0.len() {
                        assert(has_parent(b0, o0, k, o0[k]));
                        lemma_has_parent_kept(b0, o0, order@, k, o0[k]);
                    } else {
                        let q = (st0.len() - 1) as int;
                        assert(st0[q] == ix);
                        assert(has_parent(b0, o0, o0.len() as int, st0[q]));
                        lemma_has_parent_kept(b0, o0, order@, o0.len() as int, st0[q]);
                    }
                }
                assert forall|p: int, j: usize| 0 <= p < order@.len() && #[trigger] jumps_to(b0[order@[p] as int].next, j) implies seen@[j as int]
                    || stack@.contains(j) by {
                    if p == order@.len() - 1 {
                        assert(order@[p] == ix);
                    } else {
                        assert(order@[p] == o0[p]);
                        if j != ix && st0.contains(j) {
                            assert(s1.contains(j));
                            let w = choose|w: int| 0 <= w < s1.len() && s1[w] == j;
                            assert(stack@[w] == j);
                        }
                    }
                }
            }
        } else {
            proof {
                assert(order@.len() > 0);
                assert forall|q: int| 0 <= q < stack@.len() implies has_parent(b0, order@, order@.len() as int, #[trigger] stack@[q]) by {
                    assert(stack@[q] == st0[q]);
                }
                assert forall|p: int, j: usize| 0 <= p < order@.len() && #[trigger] jumps_to(b0[order@[p] as int].next, j) implies seen@[j as int]
                    || stack@.contains(j) by {
                    if j != ix && st0.contains(j) {
                        assert(stack@.contains(j));
                    }
                }
            }
        }
    }
    let m = order.len();
    // Each state's new number.
    let mut new_ix: Vec<usize> = Vec::new();
    while new_ix.len() < n
        invariant
            new_ix@.len() <= n,
        decreases n - new_ix@.len(),
    {
        new_ix.push(0);
    }
    let mut p: usize = 0;
    while p < m
        invariant
            p <= m,
            m == order@.len(),
            new_ix@.len() == n,
            order@.no_duplicates(),
            forall|q: int| 0 <= q < order@.len() ==> (#[trigger] order@[q]) < n,
            forall|q: int| 0 <= q < p ==> new_ix@[#[trigger] order@[q] as int] == q,
        decreases m - p,
    {
        let ghost ni0 = new_ix@;
        new_ix.set(order[p], p);
        proof {
            assert forall|q: int| 0 <= q < p + 1 implies new_ix@[#[trigger] order@[q] as int] == q by {
                if q < p {
                    assert(order@[q] != order@[p as int]);
                    assert(new_ix@[order@[q] as int] == ni0[order@[q] as int]);
                }
            }
        }
        p = p + 1;
    }
    // Moved out in the new order, each jump renumbered.
    let mut out: Vec<State> = Vec::new();
    let mut p: usize = 0;
    while p < m
        invariant
            p <= m,
            m == order@.len(),
            m > 0,
            new_ix@.len() == n,
            built@.len() == n,
            order@.no_duplicates(),
            forall|q: int| 0 <= q < order@.len() ==> (#[trigger] order@[q]) < n && seen@[order@[q] as int],
            forall|x: int| 0 <= x < n && #[trigger] seen@[x] ==> order@.contains(x as usize),
            forall|q: int| 0 <= q < m ==> new_ix@[#[trigger] order@[q] as int] == q,
            forall|q: int| p <= q < m ==> #[trigger] built@[order@[q] as int] == b0[order@[q] as int],
            forall|q: int, j: usize| 0 <= q < m && #[trigger] jumps_to(b0[order@[q] as int].next, j) ==> seen@[j as int],
            out@.len() == p,
            forall|q: int| 0 <= q < p ==> next_ok(#[trigger] out@[q].next, m as nat),
            forall|q: int| 0 <= q < p ==> (#[trigger] out@[q]).barrier == b0[order@[q] as int].barrier
                && out@[q].mem_read == b0[order@[q] as int].mem_read,
            targets_below(b0),
            b0.len() == n,
            seen@.len() == n,
            forall|k: int| 0 < k < m ==> has_parent(b0, order@, k, #[trigger] order@[k]),
            forall|q: int, j: usize| 0 <= q < p && #[trigger] jumps_to(b0[order@[q] as int].next, j) ==> jumps_to(
                out@[q].next,
                new_ix@[j as int],
            ),
        decreases m - p,
    {
        let ghost bp = built@;
        let mut st = take_state(&mut built, order[p]);
        proof {
            assert forall|q: int| p + 1 <= q < m implies #[trigger] built@[order@[q] as int] == b0[order@[q] as int] by {
                assert(order@[q] != order@[p as int]);
                assert(built@[order@[q] as int] == bp[order@[q] as int]);
            }
        }
        let mut nx = Next::Straight(Target::Exit);
        std::mem::swap(&mut nx, &mut st.next);
        proof {
            assert(nx == b0[order@[p as int] as int].next);
            assert forall|j: usize| #[trigger] jumps_to(nx, j) implies j < new_ix@.len() && new_ix@[j as int] < m by {
                assert(seen@[j as int]);
                assert(j < n) by {
                    assert(next_ok(b0[order@[p as int] as int].next, n as nat));
                    match nx {
                        Next::Switch { targets, .. } => {
                            let w = choose|w: int| 0 <= w < targets@.len() && targets@[w] == Target::State(j);
                            assert(target_ok(targets@[w], n as nat));
                        },
                        _ => {},
                    }
                }
                assert(order@.contains(j));
                let w = choose|w: int| 0 <= w < order@.len() && order@[w] == j;
                assert(new_ix@[order@[w] as int] == w);
            }
        }
        let ghost o_before = out@;
        let rn = remap_next(nx, &new_ix, m);
        st.next = rn;
        out.push(st);
        proof {
            assert forall|q: int, j: usize| 0 <= q < p + 1 && #[trigger] jumps_to(b0[order@[q] as int].next, j) implies jumps_to(
                out@[q].next,
                new_ix@[j as int],
            ) by {
                if q < p {
                    assert(out@[q] == o_before[q]);
                }
            }
        }
        p = p + 1;
    }
    // A body whose every state fires unconditionally never waits for
    // anything, and would spin.
    let mut k: usize = 0;
    while k < out.len()
        invariant
            k <= out@.len(),
            out@.len() == m,
            forall|q: int| 0 <= q < m ==> next_ok(#[trigger] out@[q].next, m as nat),
            forall|q: int| 0 <= q < k ==> (#[trigger] out@[q]).barrier is None && out@[q].mem_read is None,
            *sink.map == *old(sink).map,
            d0 == old(sink).diags@,
            extends(d0, sink.diags@),
            m == order@.len(),
            forall|k: int| 0 < k < m ==> has_parent(b0, order@, k, #[trigger] order@[k]),
            forall|q: int, j: usize| 0 <= q < m && #[trigger] jumps_to(b0[order@[q] as int].next, j) ==> jumps_to(
                out@[q].next,
                new_ix@[j as int],
            ),
            forall|q: int| 0 <= q < m ==> new_ix@[#[trigger] order@[q] as int] == q,
        decreases out@.len() - k,
    {
        if out[k].barrier.is_some() || out[k].mem_read.is_some() {
            proof {
                assert(out@.len() == m);
                assert forall|i: int| 0 <= i < out@.len() implies next_ok(#[trigger] out@[i].next, out@.len()) by {}
                assert((out@[k as int]).barrier is Some || out@[k as int].mem_read is Some);
                assert forall|kk: usize| 0 < kk < out@.len() implies #[trigger] jumped_to_from_before(out@, kk) by {
                    let ki = kk as int;
                    assert(has_parent(b0, order@, ki, order@[ki]));
                    let pp = choose|pp: int| 0 <= pp < ki && #[trigger] jumps_to(b0[order@[pp] as int].next, order@[ki]);
                    assert(jumps_to(out@[pp].next, new_ix@[order@[ki] as int]));
                    assert(new_ix@[order@[ki] as int] == ki);
                    assert(jumps_to(out@[pp].next, kk));
                }
            }
            return Some(out);
        }
        k = k + 1;
    }
    let ghost dm = sink.diags@;
    fail(sink, at, String::from_str("a `loop` with no blocking operation would never advance"));
    proof { lemma_extends_trans(d0, dm, sink.diags@); lemma_error_earlier(sink.diags@, dm.len() as int, d0.len() as int); }
    None
}


/// `nx` can jump to the terminal state.
pub open spec fn jumps_halt(nx: Next<Expr, MatchOn>) -> bool {
    match nx {
        Next::Straight(t) => t == Target::Halt,
        Next::Branch { then_t, else_t, .. } => then_t == Target::Halt || else_t == Target::Halt,
        Next::Switch { targets, .. } => targets@.contains(Target::Halt),
    }
}

/// Some state of `s` can jump to the terminal state.
pub open spec fn halts_somewhere(s: Seq<State>) -> bool {
    exists|i: int| 0 <= i < s.len() && #[trigger] jumps_halt(s[i].next)
}

fn next_halts(nx: &Next<Expr, MatchOn>) -> (r: bool)
    ensures
        r == jumps_halt(*nx),
{
    match nx {
        Next::Straight(t) => *t == Target::Halt,
        Next::Branch { then_t, else_t, .. } => *then_t == Target::Halt || *else_t == Target::Halt,
        Next::Switch { targets, .. } => {
            let mut k: usize = 0;
            #[verifier::loop_isolation(false)]
            while k < targets.len()
                invariant
                    k <= targets@.len(),
                    forall|q: int| 0 <= q < k ==> targets@[q] != Target::Halt,
                decreases targets@.len() - k,
            {
                if targets[k] == Target::Halt {
                    proof {
                        assert(targets@[k as int] == Target::Halt);
                        assert(targets@.contains(Target::Halt));
                        assert(jumps_halt(*nx));
                    }
                    return true;
                }
                k = k + 1;
            }
            false
        },
    }
}

/// How many states the state register encodes: the body's, and one more for
/// the terminal state when the body runs once, or can `break` out of a body
/// that repeats.
pub fn encoded_states(states: &Vec<State>, repeats: bool) -> (n: usize)
    requires
        states@.len() < usize::MAX,
    ensures
        n == if !repeats || halts_somewhere(states@) { states@.len() + 1 } else { states@.len() },
{
    let mut halts = false;
    let mut k: usize = 0;
    while k < states.len()
        invariant
            k <= states@.len(),
            halts == exists|q: int| 0 <= q < k && #[trigger] jumps_halt(states@[q].next),
        decreases states@.len() - k,
    {
        if next_halts(&states[k].next) {
            halts = true;
        }
        k = k + 1;
    }
    if !repeats || halts {
        states.len() + 1
    } else {
        states.len()
    }
}

/// The state register: named `state`, reset to state 0, wide enough to
/// count `n` states, and loading `next_state` in a cycle where some state
/// fires and holding `state`, its own value, in one where none does.
pub fn state_register(low: &mut Lowerer, state: ValueId, any_fire: ValueId, next_state: ValueId, n: usize) -> (r: Reg)
    requires
        old(low).inv(),
        old(low).room(1),
        vid_ok(state, old(low).vals().len()),
        vid_ok(any_fire, old(low).vals().len()),
        vid_ok(next_state, old(low).vals().len()),
        n <= 0x8000_0000,
    ensures
        final(low).inv(),
        final(low).same_frame(old(low)),
        r.name@ == "state"@,
        r.reset == 0,
        r.ty matches Ty::UInt(w) && w >= 1 && n <= two_to(w as nat) && (w == 1 || two_to((w - 1) as nat) < n),
        final(low).vals() == emitted(old(low).vals(), r.ty, Op::Mux { cond: any_fire, then_val: next_state, else_val: state }),
        r.next == emit_result(old(low).vals(), r.ty, Op::Mux { cond: any_fire, then_val: next_state, else_val: state }),
{
    let w = state_width(n);
    let ty = Ty::UInt(w);
    let held = low.emit(ty.clone(), Op::Mux { cond: any_fire, then_val: next_state, else_val: state });
    Reg { name: String::from_str("state"), ty, reset: 0, next: held }
}

} // verus!
