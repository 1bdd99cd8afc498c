// The pieces of `sequence` lowering that stand on their own: the gates a
// pipeline stage is built from, and the per-stage names.
//
// A stage holds its item while anything below it is stalled, so each of its
// registers loads on the cycles the stage moves and holds otherwise; and
// everything a stage does -- its writes, its assertions -- happens only when
// it is live AND moving.

use vstd::prelude::*;
use crate::ir_fsm::chain_result;
use crate::ir::{BinOp, Op, UnOp, ValueId, ValueDef, vid_ok};
use crate::lowerer::{Lowerer, bool_type, emitted, emit_result, lemma_emitted, def_is, grows, is_const_at, named, suffixed};
use crate::text::{dec, push_decimal};
use crate::ty::{Ty, bool_ty};
use crate::lowerer::PipeInfo;
use crate::diag::{Diag, DiagSink, Span, saids, said, error_with_note};

verus! {

/// `v` on the cycles `shift` says the stage moves, `held` on the others.
///
/// `None` is a stage nothing below can ever hold up -- no sink at or below
/// it -- which moves on every cycle, so there is no mux to build.
pub fn load_on(low: &mut Lowerer, shift: Option<ValueId>, ty: Ty, v: ValueId, held: ValueId) -> (r: ValueId)
    requires
        old(low).inv(),
        old(low).room(1),
        vid_ok(v, old(low).vals().len()),
        vid_ok(held, old(low).vals().len()),
        shift matches Some(c) ==> vid_ok(c, old(low).vals().len()),
    ensures
        final(low).inv(),
        final(low).same_frame(old(low)),
        vid_ok(r, final(low).vals().len()),
        match shift {
            None => r == v && final(low).vals() == old(low).vals(),
            Some(cond) => {
                let op = Op::Mux { cond, then_val: v, else_val: held };
                &&& final(low).vals() == emitted(old(low).vals(), ty, op)
                &&& r == emit_result(old(low).vals(), ty, op)
            },
        },
{
    match shift {
        Some(cond) => low.emit(ty, Op::Mux { cond, then_val: v, else_val: held }),
        None => v,
    }
}

/// Whether a stage is live AND moving: the one predicate a stage's writes,
/// assertions, reads and pushes all happen on.
pub fn moving(low: &mut Lowerer, live: ValueId, shift: Option<ValueId>) -> (r: ValueId)
    requires
        old(low).inv(),
        old(low).room(1),
        vid_ok(live, old(low).vals().len()),
        shift matches Some(s) ==> vid_ok(s, old(low).vals().len()),
    ensures
        final(low).inv(),
        final(low).same_frame(old(low)),
        vid_ok(r, final(low).vals().len()),
        match shift {
            None => r == live && final(low).vals() == old(low).vals(),
            Some(s) => {
                let op = Op::Bin { op: BinOp::And, lhs: live, rhs: s };
                &&& final(low).vals() == emitted(old(low).vals(), bool_ty(), op)
                &&& r == emit_result(old(low).vals(), bool_ty(), op)
            },
        },
{
    match shift {
        Some(s) => low.emit(bool_type(), Op::Bin { op: BinOp::And, lhs: live, rhs: s }),
        None => live,
    }
}

/// `base` for a one-stage sequence, `base<k>` otherwise -- the rule
/// `<mem>_re` and `<mem>_re<p>` follow, so a single-stage pipeline keeps the
/// names it always had.
pub fn per_stage(base: &str, k: usize, of: usize) -> (r: String)
    ensures
        r@ == (if of == 1 { base@ } else { base@ + dec(k as nat) }),
{
    let mut r = String::from_str(base);
    if of != 1 {
        push_decimal(&mut r, k as u64);
    }
    r
}

/// `new` is `old` with only its values and its assertions changed.
pub open spec fn same_but_asserts(new: Lowerer, old: Lowerer) -> bool {
    &&& new.ports_view() == old.ports_view()
    &&& new.pipes == old.pipes
    &&& new.mems == old.mems
    &&& new.slots() == old.slots()
    &&& new.params == old.params
    &&& new.stop_writes == old.stop_writes
    &&& new.in_pipeline == old.in_pipeline
    &&& new.path_view() == old.path_view()
    &&& new.anchors_view() == old.anchors_view()
    &&& new.calls == old.calls
    &&& new.call_stack == old.call_stack
    &&& new.transfer_paths == old.transfer_paths
}

/// `c` holds `!executing || was`: the `or` itself, or `inactive` alone when
/// `was` is the constant false the `or` folds away.
pub open spec fn gated(vals: Seq<ValueDef>, inactive: ValueId, was: ValueId, c: ValueId) -> bool {
    ||| (c.0 as int) < vals.len() && vals[c.0 as int].ty == bool_ty() && vals[c.0 as int].op == Op::Bin {
        op: BinOp::Or,
        lhs: inactive,
        rhs: was,
    }
    ||| c == inactive && is_const_at(vals, was, 0)
}

/// Makes every assertion from `start` on hold trivially when `executing` is
/// false: an assertion inside a stage speaks for the stage's item, and a
/// stage that is not executing has none.
pub fn gate_assertions(low: &mut Lowerer, start: usize, executing: ValueId)
    requires
        old(low).inv(),
        old(low).room(old(low).asserts@.len() + 1),
        vid_ok(executing, old(low).vals().len()),
    ensures
        final(low).inv(),
        same_but_asserts(*final(low), *old(low)),
        grows(old(low).vals(), final(low).vals()),
        final(low).vals().len() > old(low).vals().len(),
        def_is(final(low).vals()[old(low).vals().len() as int], old(low).vals().len(), bool_ty(),
            Op::Un { op: UnOp::LogNot, arg: executing }),
        final(low).asserts@.len() == old(low).asserts@.len(),
        forall|k: int| 0 <= k < old(low).asserts@.len() ==> {
            let a = #[trigger] final(low).asserts@[k];
            let was = old(low).asserts@[k];
            &&& a.message == was.message
            &&& a.is_fatal == was.is_fatal
            &&& if k < start {
                a.cond == was.cond
            } else {
                gated(final(low).vals(), ValueId(old(low).vals().len() as u32), was.cond, a.cond)
            }
        },
{
    let inactive = low.emit(bool_type(), Op::Un { op: UnOp::LogNot, arg: executing });
    let ghost low1 = *low;
    let ghost n0 = old(low).vals().len();
    let mut ix: usize = start;
    while ix < low.asserts.len()
        invariant
            low.inv(),
            start <= ix,
            same_but_asserts(*low, *old(low)),
            low.asserts@.len() == old(low).asserts@.len(),
            grows(old(low).vals(), low.vals()),
            low.vals().len() > n0,
            n0 == old(low).vals().len(),
            inactive == ValueId(n0 as u32),
            def_is(low.vals()[n0 as int], n0, bool_ty(), Op::Un { op: UnOp::LogNot, arg: executing }),
            low.vals().len() + (low.asserts@.len() - ix) <= n0 + old(low).asserts@.len() + 1,
            old(low).room(old(low).asserts@.len() + 1),
            forall|k: int| 0 <= k < old(low).asserts@.len() ==> {
                let a = #[trigger] low.asserts@[k];
                let was = old(low).asserts@[k];
                &&& a.message == was.message
                &&& a.is_fatal == was.is_fatal
                &&& if k < start || k >= ix {
                    a.cond == was.cond
                } else {
                    gated(low.vals(), inactive, was.cond, a.cond)
                }
            },
        decreases low.asserts@.len() - ix,
    {
        let ghost before = *low;
        let cond = low.asserts[ix].cond;
        let c = low.emit(bool_type(), Op::Bin { op: BinOp::Or, lhs: inactive, rhs: cond });
        proof {
            lemma_emitted(before.vals(), bool_ty(), Op::Bin { op: BinOp::Or, lhs: inactive, rhs: cond });
        }
        low.asserts[ix].cond = c;
        proof {
            let cur = *low;
            assert(gated(cur.vals(), inactive, old(low).asserts@[ix as int].cond, c));
            assert forall|k: int| 0 <= k < old(low).asserts@.len() && k != ix && !(k < start || k >= ix + 1)
                implies gated(cur.vals(), inactive, old(low).asserts@[k].cond, #[trigger] cur.asserts@[k].cond) by {
                assert(cur.asserts@[k] == before.asserts@[k]);
                lemma_gated_grows(before.vals(), cur.vals(), inactive, old(low).asserts@[k].cond, cur.asserts@[k].cond);
            }
        }
        ix = ix + 1;
    }
}

proof fn lemma_gated_grows(v1: Seq<ValueDef>, v2: Seq<ValueDef>, inactive: ValueId, was: ValueId, c: ValueId)
    requires
        gated(v1, inactive, was, c),
        grows(v1, v2),
    ensures
        gated(v2, inactive, was, c),
{
    if (c.0 as int) < v1.len() {
        assert(v2[c.0 as int].op == v1[c.0 as int].op);
    }
    if (was.0 as int) < v1.len() {
        assert(v2[was.0 as int].op == v1[was.0 as int].op);
    }
}

/// The head's gather: the `in` pipes, in declaration order.
///
/// A sequence takes one item from every blocking input on the same cycle, so
/// these travel together everywhere -- `offered` is the reduction over their
/// `present` bits, and one `take` advances all of them.
pub struct Head {
    pub ix: Vec<usize>,
    /// Whether the receive was a blocking `@rcv`. A `@try_rcv` input is
    /// optional: it never holds the pipeline up, and it gives up an item only
    /// on the cycles it had one.
    pub blocking: Vec<bool>,
    pub rsalt_q: Vec<ValueId>,
    pub rsalt_slot: Vec<usize>,
    /// `data[ridx]`, emitted exactly once per pipe.
    pub item: Vec<ValueId>,
    /// `!empty` -- whether this pipe is offering. Emitted on demand and
    /// cached, because a `@try_rcv` binds its own as `ok` while `offered`
    /// wants them all. One fact, so one name.
    pub present: Vec<Option<ValueId>>,
}

/// Whether input `j` is offering an item, emitted at most once.
pub fn head_present(low: &mut Lowerer, head: &mut Head, j: usize) -> (r: ValueId)
    requires
        old(low).inv(),
        old(low).room(3),
        j < old(head).ix@.len(),
        j < old(head).rsalt_q@.len(),
        j < old(head).present@.len(),
        old(head).ix@[j as int] < old(low).pipes@.len(),
        vid_ok(old(head).rsalt_q@[j as int], old(low).vals().len()),
        old(head).present@[j as int] matches Some(v) ==> vid_ok(v, old(low).vals().len()),
    ensures
        final(low).inv(),
        final(low).same_frame(old(low)),
        vid_ok(r, final(low).vals().len()),
        final(head).ix == old(head).ix,
        final(head).blocking == old(head).blocking,
        final(head).rsalt_q == old(head).rsalt_q,
        final(head).rsalt_slot == old(head).rsalt_slot,
        final(head).item == old(head).item,
        final(head).present@ == old(head).present@.update(j as int, Some(r)),
        match old(head).present@[j as int] {
            Some(v) => r == v && final(low).vals() == old(low).vals(),
            None => {
                let n = old(low).vals().len();
                let pipe = old(low).pipes@[old(head).ix@[j as int] as int];
                &&& grows(old(low).vals(), final(low).vals())
                &&& final(low).vals().len() == n + 3
                &&& r.0 == n + 2
                &&& def_is(final(low).vals()[(n + 1) as int], (n + 1) as nat, bool_ty(), Op::Cmp {
                    op: crate::ir::CmpOp::Eq,
                    lhs: ValueId(n as u32),
                    rhs: old(head).rsalt_q@[j as int],
                })
                &&& def_is(final(low).vals()[r.0 as int], r.0 as nat, bool_ty(), Op::Un {
                    op: UnOp::LogNot,
                    arg: ValueId((n + 1) as u32),
                })
                &&& named(final(low).vals()[r.0 as int], pipe.name@ + "_present"@)
            },
        },
{
    if let Some(v) = head.present[j] {
        proof {
            assert(head.present@.update(j as int, Some(v)) =~= head.present@);
        }
        return v;
    }
    let ix = head.ix[j];
    let empty = low.pipe_empty(ix, head.rsalt_q[j]);
    let ghost mid = low.vals();
    let v = low.emit(bool_type(), Op::Un { op: UnOp::LogNot, arg: empty });
    let name = suffixed(&low.pipes[ix].name, "_present");
    low.name_value_safe(v, name);
    head.present.set(j, Some(v));
    proof {
        assert(mid.subrange(0, old(low).vals().len() as int) == old(low).vals());
        assert forall|i: int| 0 <= i < old(low).vals().len() implies #[trigger] low.vals()[i].op == old(low).vals()[i].op
            && low.vals()[i].id == old(low).vals()[i].id && low.vals()[i].ty == old(low).vals()[i].ty by {
            assert(mid[i] == old(low).vals()[i]);
        }
    }
    v
}

/// A register across a stage cut: a read of register `slot`, named `name`,
/// whose next value takes `v` when the stage above the cut moves and holds
/// otherwise. The register is recorded in `pending` as `(slot, name, ty,
/// next)` for the module to declare, and the read is the answer.
pub fn cross(
    low: &mut Lowerer,
    pending: &mut Vec<(usize, String, Ty, ValueId)>,
    next_slot: &mut usize,
    name: String,
    ty: Ty,
    v: ValueId,
    shift: Option<ValueId>,
) -> (held: ValueId)
    requires
        old(low).inv(),
        old(low).room(2),
        *old(next_slot) < usize::MAX,
        vid_ok(v, old(low).vals().len()),
        shift matches Some(c) ==> vid_ok(c, old(low).vals().len()),
    ensures
        final(low).inv(),
        final(low).same_frame(old(low)),
        *final(next_slot) == *old(next_slot) + 1,
        held.0 == old(low).vals().len(),
        grows(old(low).vals(), final(low).vals()),
        final(low).vals()[held.0 as int] == (ValueDef {
            id: held,
            ty,
            op: Op::RegRead(*old(next_slot) as u32),
            name: Some(name),
        }),
        final(pending)@.len() == old(pending)@.len() + 1,
        final(pending)@.drop_last() == old(pending)@,
        ({
            let e = final(pending)@.last();
            &&& e.0 == *old(next_slot)
            &&& e.1@ == name@
            &&& e.2 == ty
            &&& match shift {
                None => e.3 == v && final(low).vals().len() == held.0 + 1,
                Some(c) => {
                    &&& e.3.0 == held.0 + 1
                    &&& final(low).vals().len() == held.0 + 2
                    &&& def_is(final(low).vals()[held.0 + 1], (held.0 + 1) as nat, ty, Op::Mux { cond: c, then_val: v, else_val: held })
                },
            }
        }),
{
    let slot = *next_slot;
    *next_slot = slot + 1;
    let held = low.emit(ty.clone(), Op::RegRead(slot as u32));
    proof {
        lemma_emitted(old(low).vals(), ty, Op::RegRead(slot as u32));
    }
    low.name_value(held, name.clone());
    let ghost named = low.vals();
    let next = load_on(low, shift, ty.clone(), v, held);
    proof {
        match shift {
            Some(c) => {
                lemma_emitted(named, ty, Op::Mux { cond: c, then_val: v, else_val: held });
                assert(!crate::lowerer::is_const_at(named, held, 1));
            },
            None => {},
        }
    }
    let ghost before = pending@;
    pending.push((slot, name, ty, next));
    proof {
        assert(pending@.drop_last() =~= before);
    }
    held
}

/// Some input before `n` is a blocking receive.
pub open spec fn any_blocking_upto(blocking: Seq<bool>, n: int) -> bool {
    exists|i: int| 0 <= i < n && #[trigger] blocking[i]
}

/// Which head inputs the offer waits on: the blocking ones, or every one
/// when none blocks.
pub open spec fn gathers(blocking: Seq<bool>, j: int) -> bool {
    !any_blocking_upto(blocking, blocking.len() as int) || blocking[j]
}

/// The present bits of the inputs before `n` the offer waits on, in order.
pub open spec fn gathered(blocking: Seq<bool>, present: Seq<Option<ValueId>>, n: int) -> Seq<ValueId>
    decreases n,
{
    if n <= 0 {
        Seq::empty()
    } else {
        let prev = gathered(blocking, present, n - 1);
        if gathers(blocking, n - 1) {
            prev.push(present[n - 1]->0)
        } else {
            prev
        }
    }
}

proof fn lemma_gathered_update(blocking: Seq<bool>, present: Seq<Option<ValueId>>, k: int, x: Option<ValueId>, n: int)
    requires
        0 <= k < present.len(),
        n <= k,
    ensures
        gathered(blocking, present.update(k, x), n) == gathered(blocking, present, n),
    decreases n,
{
    if n > 0 {
        lemma_gathered_update(blocking, present, k, x, n - 1);
    }
}

/// The offer is the fold, over values `mid` that extend `before`, of the
/// gathered present bits: AND when some input blocks, else OR. `after` is
/// what the fold leaves, up to names.
pub open spec fn offer_from(before: Seq<ValueDef>, mid: Seq<ValueDef>, g: Seq<ValueId>, any_b: bool, r: ValueId, after: Seq<ValueDef>) -> bool {
    let c = chain_result(mid, g, if any_b { BinOp::And } else { BinOp::Or }, if any_b { 1 } else { 0 });
    &&& grows(before, mid)
    &&& r == c.1
    &&& c.0.len() == after.len()
    &&& grows(c.0, after)
}

/// Whether stage `k` is holding an item this cycle.
///
/// Stage 0 has one when the head gathered one: when every blocking input
/// delivered, since the head takes one from each and they are the same
/// item's inputs; or, with no blocking input, when any input delivered --
/// never a constant 1, which would make the head a free-running source.
/// That answer is emitted at most once, in `offered`. Stage `k` has one when
/// the cut behind it passed one on: the valid register `valid_base + k - 1`.
pub fn stage_live(low: &mut Lowerer, k: usize, offered: &mut Option<ValueId>, head: &mut Head, valid_base: usize) -> (r: ValueId)
    requires
        old(low).inv(),
        old(low).room(4 * old(head).ix@.len() + 2),
        old(low).pipes@.len() > 0 || old(head).ix@.len() == 0,
        old(head).ix@.len() == old(head).blocking@.len(),
        old(head).ix@.len() == old(head).rsalt_q@.len(),
        old(head).ix@.len() == old(head).present@.len(),
        forall|j: int| 0 <= j < old(head).ix@.len() ==> (#[trigger] old(head).ix@[j]) < old(low).pipes@.len(),
        forall|j: int| 0 <= j < old(head).ix@.len() ==> vid_ok(#[trigger] old(head).rsalt_q@[j], old(low).vals().len()),
        forall|j: int| 0 <= j < old(head).ix@.len() ==> (#[trigger] old(head).present@[j] matches Some(v) ==> vid_ok(v, old(low).vals().len())),
        *old(offered) matches Some(v) ==> vid_ok(v, old(low).vals().len()),
        k > 0 ==> valid_base + k - 1 <= u32::MAX,
    ensures
        final(low).inv(),
        final(low).same_frame(old(low)),
        vid_ok(r, final(low).vals().len()),
        grows(old(low).vals(), final(low).vals()),
        final(head).ix == old(head).ix,
        final(head).blocking == old(head).blocking,
        final(head).rsalt_q == old(head).rsalt_q,
        final(head).rsalt_slot == old(head).rsalt_slot,
        final(head).item == old(head).item,
        final(head).present@.len() == old(head).present@.len(),
        forall|j: int| 0 <= j < old(head).present@.len() && (#[trigger] old(head).present@[j]) is Some
            ==> final(head).present@[j] == old(head).present@[j],
        k > 0 ==> {
            &&& *final(offered) == *old(offered)
            &&& final(head).present == old(head).present
            &&& r.0 == old(low).vals().len()
            &&& final(low).vals().len() == old(low).vals().len() + 1
            &&& def_is(final(low).vals()[r.0 as int], r.0 as nat, bool_ty(), Op::RegRead((valid_base + k - 1) as u32))
        },
        k == 0 ==> *final(offered) == Some(r),
        k == 0 && *old(offered) is Some ==> r == old(offered)->0 && final(low).vals() == old(low).vals()
            && final(head).present == old(head).present,
        // A fresh offer: every gathered input's present bit, folded.
        k == 0 && *old(offered) is None ==> {
            let b = old(head).blocking@;
            &&& forall|j: int| 0 <= j < b.len() && gathers(b, j) ==> (#[trigger] final(head).present@[j]) is Some
            &&& exists|mid: Seq<ValueDef>| #[trigger] offer_from(old(low).vals(), mid,
                gathered(b, final(head).present@, b.len() as int), any_blocking_upto(b, b.len() as int), r, final(low).vals())
        },
{
    if k > 0 {
        let bit = low.emit(bool_type(), Op::RegRead((valid_base + (k - 1)) as u32));
        proof {
            lemma_emitted(old(low).vals(), bool_ty(), Op::RegRead((valid_base + (k - 1)) as u32));
        }
        let mut name = String::from_str("v");
        push_decimal(&mut name, (k - 1) as u64);
        low.name_value_safe(bit, name);
        return bit;
    }
    if let Some(v) = *offered {
        return v;
    }
    let n = head.ix.len();
    let ghost b = head.blocking@;
    let mut any_blocking = false;
    let mut j: usize = 0;
    while j < n
        invariant
            j <= n,
            n == head.ix@.len(),
            n == head.blocking@.len(),
            b == head.blocking@,
            any_blocking == any_blocking_upto(b, j as int),
        decreases n - j,
    {
        if head.blocking[j] {
            any_blocking = true;
        }
        proof {
            if !any_blocking {
                assert forall|i: int| 0 <= i < j + 1 implies !#[trigger] b[i] by {
                    if i < j {
                        assert(!any_blocking_upto(b, j as int));
                    }
                }
            } else if b[j as int] {
                assert(b[j as int]);
            }
        }
        j = j + 1;
    }
    let mut have: Vec<ValueId> = Vec::new();
    let mut j: usize = 0;
    while j < n
        invariant
            j <= n,
            low.inv(),
            low.same_frame(old(low)),
            grows(old(low).vals(), low.vals()),
            low.vals().len() <= old(low).vals().len() + 3 * j,
            old(low).room(4 * old(head).ix@.len() + 2),
            n == head.ix@.len(),
            n == head.blocking@.len(),
            n == head.rsalt_q@.len(),
            head.ix == old(head).ix,
            head.blocking == old(head).blocking,
            head.rsalt_q == old(head).rsalt_q,
            head.rsalt_slot == old(head).rsalt_slot,
            head.item == old(head).item,
            b == old(head).blocking@,
            any_blocking == any_blocking_upto(b, n as int),
            head.present@.len() == n,
            have@.len() <= j,
            forall|i: int| 0 <= i < n ==> (#[trigger] head.ix@[i]) < low.pipes@.len(),
            forall|i: int| 0 <= i < n ==> vid_ok(#[trigger] head.rsalt_q@[i], low.vals().len()),
            forall|i: int| 0 <= i < n ==> (#[trigger] head.present@[i] matches Some(v) ==> vid_ok(v, low.vals().len())),
            forall|i: int| 0 <= i < have@.len() ==> vid_ok(#[trigger] have@[i], low.vals().len()),
            forall|i: int| 0 <= i < n && (#[trigger] old(head).present@[i]) is Some ==> head.present@[i] == old(head).present@[i],
            forall|i: int| j <= i < n ==> #[trigger] head.present@[i] == old(head).present@[i],
            forall|i: int| 0 <= i < j && gathers(b, i) ==> (#[trigger] head.present@[i]) is Some,
            have@ == gathered(b, head.present@, j as int),
        decreases n - j,
    {
        if !any_blocking || head.blocking[j] {
            let ghost l0 = *low;
            let ghost p0 = head.present@;
            let p = head_present(low, head, j);
            proof {
                assert forall|i: int| 0 <= i < n implies vid_ok(#[trigger] head.rsalt_q@[i], low.vals().len()) by {
                    assert(vid_ok(head.rsalt_q@[i], l0.vals().len()));
                }
                assert forall|i: int| 0 <= i < n implies (#[trigger] head.present@[i] matches Some(v) ==> vid_ok(v, low.vals().len())) by {
                    if i != j {
                        assert(head.present@[i] == p0[i]);
                    }
                }
                assert forall|i: int| 0 <= i < have@.len() implies vid_ok(#[trigger] have@[i], low.vals().len()) by {
                    assert(vid_ok(have@[i], l0.vals().len()));
                }
                lemma_grows2(old(low).vals(), l0.vals(), low.vals());
                lemma_gathered_update(b, p0, j as int, Some(p), j as int);
            }
            have.push(p);
        } else {
            proof {
                assert(!gathers(b, j as int));
            }
        }
        j = j + 1;
    }
    let ghost l1 = *low;
    let v = if any_blocking {
        crate::ir_fsm::all_of(low, have.as_slice())
    } else {
        crate::ir_fsm::any_of(low, have.as_slice())
    };
    let ghost l2 = low.vals();
    proof {
        lemma_grows2(old(low).vals(), l1.vals(), low.vals());
    }
    if have.len() > 1 {
        low.name_value_safe(v, String::from_str("offered"));
        proof {
            lemma_grows2(old(low).vals(), l1.vals(), low.vals());
        }
    }
    proof {
        assert(have@ == gathered(b, head.present@, b.len() as int));
        assert(grows(l2, low.vals()));
        assert(offer_from(old(low).vals(), l1.vals(), gathered(b, head.present@, b.len() as int),
            any_blocking_upto(b, b.len() as int), v, low.vals()));
    }
    *offered = Some(v);
    v
}

proof fn lemma_grows2(a: Seq<ValueDef>, b: Seq<ValueDef>, c: Seq<ValueDef>)
    requires
        grows(a, b),
        grows(b, c),
    ensures
        grows(a, c),
{
    assert forall|i: int| 0 <= i < a.len() implies #[trigger] c[i].id == a[i].id && c[i].ty == a[i].ty && c[i].op == a[i].op by {
        assert(b[i].op == a[i].op);
    }
}


/// A sequence has a `buffer in` among its pipes.
pub open spec fn has_source(pipes: Seq<PipeInfo>) -> bool {
    exists|i: int| 0 <= i < pipes.len() && (#[trigger] pipes[i]).is_input
}

/// A sequence has a `buffer out` among its pipes.
pub open spec fn has_sink(pipes: Seq<PipeInfo>) -> bool {
    exists|i: int| 0 <= i < pipes.len() && !(#[trigger] pipes[i]).is_input
}

/// A pipeline advances on an item arriving and shifts because a sink has
/// room for what leaves: with no `buffer in` or no `buffer out` there is no
/// occasion for either. Reports the first of the two that is missing, at
/// `at`, the sequence's name.
pub fn check_sequence_ends(pipes: &Vec<PipeInfo>, at: Span, sink: &mut DiagSink) -> (ok: bool)
    ensures
        *final(sink).map == *old(sink).map,
        ok == (has_source(pipes@) && has_sink(pipes@)),
        ok ==> final(sink).diags@ == old(sink).diags@,
        !has_source(pipes@) ==> saids(final(sink).diags@) == saids(old(sink).diags@).push(error_with_note(
            at,
            "a sequence has no `in` pipe, so nothing ever enters it"@,
            "a pipeline advances on an item arriving; a block that produces without consuming is a `process` with a `loop`"@,
        )),
        has_source(pipes@) && !has_sink(pipes@) ==> saids(final(sink).diags@) == saids(old(sink).diags@).push(error_with_note(
            at,
            "a sequence has no `out` pipe, so nothing ever leaves it"@,
            "the pipeline shifts when its sinks have room, and with no sink there is nothing to shift for; a block that consumes without producing is a `process` with a `loop`"@,
        )),
{
    let ghost d0 = sink.diags@;
    let mut inputs = false;
    let mut outputs = false;
    let mut k: usize = 0;
    while k < pipes.len()
        invariant
            k <= pipes@.len(),
            inputs == exists|q: int| 0 <= q < k && (#[trigger] pipes@[q]).is_input,
            outputs == exists|q: int| 0 <= q < k && !(#[trigger] pipes@[q]).is_input,
        decreases pipes@.len() - k,
    {
        if pipes[k].is_input {
            inputs = true;
        } else {
            outputs = true;
        }
        k = k + 1;
    }
    if !inputs {
        let d = Diag::error(at, String::from_str("a sequence has no `in` pipe, so nothing ever enters it")).with_note(
            String::from_str(
                "a pipeline advances on an item arriving; a block that produces without consuming is a `process` with a `loop`",
            ),
        );
        sink.push(d);
        proof { assert(saids(sink.diags@) =~= saids(d0).push(said(d))); }
        return false;
    }
    if !outputs {
        let d = Diag::error(at, String::from_str("a sequence has no `out` pipe, so nothing ever leaves it")).with_note(
            String::from_str(
                "the pipeline shifts when its sinks have room, and with no sink there is nothing to shift for; a block that consumes without producing is a `process` with a `loop`",
            ),
        );
        sink.push(d);
        proof { assert(saids(sink.diags@) =~= saids(d0).push(said(d))); }
        return false;
    }
    true
}

} // verus!
