// Making two operands agree, and the bookkeeping of nonblocking transfers.

use vstd::prelude::*;
use crate::ir::{BinOp, Op, ValueDef, ValueId, vid_ok};
use crate::lowerer::{Lowerer, PathTerm, PipeInfo, bool_type, emitted, emit_result, lemma_emitted, grows, no_reg_reads};
use crate::lower_path::{path_value, path_cost};
use crate::diag::{DiagSink, saids, error_at};
use crate::lower_path::narrow_to_path;
use crate::ty::{Ty, bool_ty, fits, literal_fits, same_ty, width};

verus! {

/// `vals` with one value appended: `ty`, computing `op`.
pub open spec fn with_value(vals: Seq<ValueDef>, ty: Ty, op: Op) -> (Seq<ValueDef>, ValueId) {
    (vals.push(ValueDef { id: ValueId(vals.len() as u32), ty, op, name: None }), ValueId(vals.len() as u32))
}

/// What `extend_to` leaves: the values, and the one of type `want`.
pub open spec fn extended(vals: Seq<ValueDef>, v: ValueId, want: Ty) -> (Seq<ValueDef>, ValueId) {
    let have = vals[v.0 as int].ty;
    let to = width(want);
    if same_ty(have, want) {
        (vals, v)
    } else if !(have is SInt) && !(want is SInt) && vals[v.0 as int].op is Const && fits(
        vals[v.0 as int].op->Const_0 as nat,
        want,
    ) {
        with_value(vals, want, vals[v.0 as int].op)
    } else {
        let at = if have is SInt { Ty::SInt(to as u32) } else { Ty::UInt(to as u32) };
        let (v1, w1, t1) = if width(have) == to {
            (vals, v, have)
        } else {
            let op = if have is SInt { Op::SExt { arg: v, to: to as u32 } } else { Op::ZExt { arg: v, to: to as u32 } };
            (with_value(vals, at, op).0, with_value(vals, at, op).1, at)
        };
        if same_ty(t1, want) {
            (v1, w1)
        } else {
            with_value(v1, want, Op::Cast { arg: w1 })
        }
    }
}

impl Lowerer {
    /// `value` as a value of type `want`: widened by sign or zero extension
    /// as its own signedness says, then reinterpreted if only the signedness
    /// still differs. A constant that fits is re-materialised at the wanted
    /// width instead, which reads `mem[2'd1]` where a concatenation would read
    /// `mem[{{1{1'b0}}, 1'b1}]`.
    pub fn extend_to(&mut self, value: ValueId, want: &Ty) -> (r: ValueId)
        requires
            old(self).inv(),
            old(self).room(2),
            vid_ok(value, old(self).vals().len()),
            width(old(self).vals()[value.0 as int].ty) <= u32::MAX,
            width(*want) <= u32::MAX,
        ensures
            final(self).inv(),
            final(self).adds(old(self), 2),
            (final(self).vals(), r) == extended(old(self).vals(), value, *want),
    {
        let ghost v0 = self.vals();
        let have = self.ty_of(value);
        if have.same(want) {
            proof { crate::lower_path::lemma_adds_none(self); }
            return value;
        }
        if !have.is_signed() && !want.is_signed() {
            if let Op::Const(k) = self.values[value.0 as usize].op {
                if literal_fits(k, want) {
                    let r = self.emit(want.clone(), Op::Const(k));
                    proof { lemma_emitted(v0, *want, Op::Const(k)); }
                    return r;
                }
            }
        }
        let to = want.bit_width();
        let widened = if have.bit_width() == to {
            proof { crate::lower_path::lemma_adds_none(self); }
            value
        } else if have.is_signed() {
            let w = self.emit(have.with_width(to), Op::SExt { arg: value, to });
            proof { lemma_emitted(v0, Ty::SInt(to), Op::SExt { arg: value, to }); }
            w
        } else {
            let w = self.emit(have.with_width(to), Op::ZExt { arg: value, to });
            proof { lemma_emitted(v0, Ty::UInt(to), Op::ZExt { arg: value, to }); }
            w
        };
        let ghost v1 = self.vals();
        let ghost mid = *self;
        if self.ty_of(widened).same(want) {
            widened
        } else {
            let r = self.emit(want.clone(), Op::Cast { arg: widened });
            proof {
                lemma_emitted(v1, *want, Op::Cast { arg: widened });
                crate::lower_path::lemma_adds_trans(old(self), &mid, self, 1, 1);
            }
            r
        }
    }

    /// The guard a pipe's send is taken under, once another send on another
    /// path joins it: either path. With no earlier send, the new path alone;
    /// and a send at the top level, under no guard, leaves none.
    pub fn union_transfer_guard(&mut self, occupied: bool, old_guard: Option<ValueId>, new_guard: Option<ValueId>) -> (r: Option<ValueId>)
        requires
            old(self).inv(),
            old(self).room(1),
            old_guard matches Some(v) ==> vid_ok(v, old(self).vals().len()),
            new_guard matches Some(v) ==> vid_ok(v, old(self).vals().len()),
        ensures
            final(self).inv(),
            final(self).same_frame(old(self)),
            r matches Some(v) ==> vid_ok(v, final(self).vals().len()),
            if !occupied {
                r == new_guard && final(self).vals() == old(self).vals()
            } else {
                match (old_guard, new_guard) {
                    (Some(lhs), Some(rhs)) => {
                        let op = Op::Bin { op: BinOp::Or, lhs, rhs };
                        &&& final(self).vals() == emitted(old(self).vals(), bool_ty(), op)
                        &&& r == Some(emit_result(old(self).vals(), bool_ty(), op))
                    },
                    _ => r is None && final(self).vals() == old(self).vals(),
                }
            },
    {
        if !occupied {
            return new_guard;
        }
        match (old_guard, new_guard) {
            (Some(lhs), Some(rhs)) => Some(self.emit(bool_type(), Op::Bin { op: BinOp::Or, lhs, rhs })),
            _ => None,
        }
    }

    /// Whether pipe `ix` transferred this cycle: a nonblocking operation
    /// fires when the pipe was eligible and the body actually asked on the
    /// path it asked from. A pipe the body never used transfers nothing.
    pub fn pipe_transfer(&mut self, ix: usize) -> (r: ValueId)
        requires
            old(self).inv(),
            old(self).room(1),
            ix < old(self).pipes@.len(),
            old(self).pipes@[ix as int].used ==> old(self).pipes@[ix as int].fired is Some,
        ensures
            final(self).inv(),
            final(self).same_frame(old(self)),
            vid_ok(r, final(self).vals().len()),
            if !old(self).pipes@[ix as int].used {
                final(self).vals() == emitted(old(self).vals(), bool_ty(), Op::Const(0)) && r == emit_result(
                    old(self).vals(),
                    bool_ty(),
                    Op::Const(0),
                )
            } else {
                let fired = old(self).pipes@[ix as int].fired->0;
                match old(self).pipes@[ix as int].send_guard {
                    None => r == fired && final(self).vals() == old(self).vals(),
                    Some(p) => {
                        let op = Op::Bin { op: BinOp::And, lhs: fired, rhs: p };
                        &&& final(self).vals() == emitted(old(self).vals(), bool_ty(), op)
                        &&& r == emit_result(old(self).vals(), bool_ty(), op)
                    },
                }
            },
    {
        if !self.pipes[ix].used {
            return self.emit(bool_type(), Op::Const(0));
        }
        let eligible = match self.pipes[ix].fired {
            Some(v) => v,
            None => {
                proof { assert(false); }
                return self.emit(bool_type(), Op::Const(0));
            },
        };
        let guard = self.pipes[ix].send_guard;
        narrow_to_path(self, eligible, guard)
    }
}

/// What a path term says: a condition taken or not, or a set of case labels
/// selected or excluded.
pub open spec fn term_view(t: PathTerm) -> (bool, ValueId, Seq<u128>, bool) {
    match t {
        PathTerm::Cond { value, taken } => (true, value, Seq::empty(), taken),
        PathTerm::Labels { scrutinee, labels, taken } => (false, scrutinee, labels@, taken),
    }
}

pub open spec fn path_view(p: Seq<PathTerm>) -> Seq<(bool, ValueId, Seq<u128>, bool)> {
    p.map_values(|t: PathTerm| term_view(t))
}

/// Every label of `a` is among `b`.
pub open spec fn all_in(a: Seq<u128>, b: Seq<u128>) -> bool {
    forall|i: int| 0 <= i < a.len() ==> b.contains(#[trigger] a[i])
}

/// No label of `a` is among `b`.
pub open spec fn none_in(a: Seq<u128>, b: Seq<u128>) -> bool {
    forall|i: int| 0 <= i < a.len() ==> !b.contains(#[trigger] a[i])
}

/// Two path terms that cannot both hold: the same condition taken one way
/// and the other, or case labels on the same scrutinee that no value meets
/// both of.
pub open spec fn exclusive(x: (bool, ValueId, Seq<u128>, bool), y: (bool, ValueId, Seq<u128>, bool)) -> bool {
    if x.0 && y.0 {
        x.1 == y.1 && x.3 != y.3
    } else if !x.0 && !y.0 && x.1 == y.1 {
        if x.3 && y.3 {
            none_in(x.2, y.2)
        } else if x.3 && !y.3 {
            all_in(x.2, y.2)
        } else if !x.3 && y.3 {
            all_in(y.2, x.2)
        } else {
            false
        }
    } else {
        false
    }
}


/// Term `t` holds in a cycle where each condition `v` reads `cond(v)` and
/// each scrutinee `v` reads the tag `tag(v)`: a condition taken the way it
/// reads, or an arm whose labels do (`taken`) or do not (`!taken`) hold the
/// tag.
pub open spec fn term_holds(
    t: (bool, ValueId, Seq<u128>, bool),
    cond: spec_fn(ValueId) -> bool,
    tag: spec_fn(ValueId) -> u128,
) -> bool {
    if t.0 {
        cond(t.1) == t.3
    } else {
        t.2.contains(tag(t.1)) == t.3
    }
}

/// Some cycle can meet `t`: every term but an arm that takes no label.
pub open spec fn satisfiable(t: (bool, ValueId, Seq<u128>, bool)) -> bool {
    t.0 || !t.3 || t.2.len() > 0
}

/// Some cycle meets both terms.
pub open spec fn both_can_hold(x: (bool, ValueId, Seq<u128>, bool), y: (bool, ValueId, Seq<u128>, bool)) -> bool {
    exists|cond: spec_fn(ValueId) -> bool, tag: spec_fn(ValueId) -> u128|
        #[trigger] term_holds(x, cond, tag) && #[trigger] term_holds(y, cond, tag)
}

/// A tag value that is none of `s`.
proof fn lemma_fresh_label(s: Seq<u128>) -> (v: u128)
    requires
        s.len() < 0xffff_ffff_ffff_ffff_ffff_ffff_ffff_ffff,
    ensures
        !s.contains(v),
{
    let n = s.len() + 1;
    let t = Seq::new(n, |i: int| i as u128);
    if forall|i: int| 0 <= i < n ==> s.contains(#[trigger] t[i]) {
        assert(t.no_duplicates()) by {
            assert forall|a: int, b: int| 0 <= a < t.len() && 0 <= b < t.len() && a != b implies t[a] != t[b] by {}
        }
        t.unique_seq_to_set();
        assert forall|v: u128| t.to_set().contains(v) implies s.to_set().contains(v) by {
            let i = choose|i: int| 0 <= i < t.len() && t[i] == v;
            assert(s.contains(t[i]));
        }
        vstd::seq_lib::seq_to_set_is_finite(s);
        vstd::set_lib::lemma_len_subset(t.to_set(), s.to_set());
        s.lemma_cardinality_of_set();
        assert(false);
    }
    let i = choose|i: int| 0 <= i < n && !s.contains(t[i]);
    t[i]
}

/// A tag value that meets `t`, an arm some cycle can meet.
proof fn lemma_meeting_label(t: (bool, ValueId, Seq<u128>, bool)) -> (v: u128)
    requires
        !t.0,
        satisfiable(t),
        t.2.len() < 0xffff_ffff_ffff_ffff_ffff_ffff_ffff_ffff,
    ensures
        t.2.contains(v) == t.3,
{
    if t.3 {
        assert(t.2.contains(t.2[0]));
        t.2[0]
    } else {
        lemma_fresh_label(t.2)
    }
}

/// Two path terms are exclusive exactly when no cycle meets both: the same
/// condition taken both ways, two arms of one scrutinee with no label in
/// common, or an arm whose every label a catch-all on the same scrutinee
/// excludes. Terms on different values, or a condition and an arm, can
/// always meet.
pub proof fn law_exclusive_exactly_when_no_cycle_meets_both(x: PathTerm, y: PathTerm)
    requires
        satisfiable(term_view(x)),
        satisfiable(term_view(y)),
        term_view(x).2.len() < 0x1_0000_0000_0000_0000,
        term_view(y).2.len() < 0x1_0000_0000_0000_0000,
    ensures
        exclusive(term_view(x), term_view(y)) <==> !both_can_hold(term_view(x), term_view(y)),
{
    let tx = term_view(x);
    let ty = term_view(y);
    if exclusive(tx, ty) {
        if both_can_hold(tx, ty) {
            let (c, g) = choose|cond: spec_fn(ValueId) -> bool, tag: spec_fn(ValueId) -> u128|
                #[trigger] term_holds(tx, cond, tag) && #[trigger] term_holds(ty, cond, tag);
            if !tx.0 {
                let v = g(tx.1);
                if tx.3 && ty.3 {
                    let i = choose|i: int| 0 <= i < tx.2.len() && tx.2[i] == v;
                    assert(!ty.2.contains(tx.2[i]));
                } else if tx.3 {
                    let i = choose|i: int| 0 <= i < tx.2.len() && tx.2[i] == v;
                    assert(ty.2.contains(tx.2[i]));
                } else {
                    let i = choose|i: int| 0 <= i < ty.2.len() && ty.2[i] == v;
                    assert(tx.2.contains(ty.2[i]));
                }
            }
        }
    } else {
        let cx = |v: ValueId| if v == tx.1 { tx.3 } else { ty.3 };
        let cy = |v: ValueId| if v == ty.1 { ty.3 } else { tx.3 };
        if tx.0 && ty.0 {
            assert(term_holds(tx, cx, |v: ValueId| 0u128) && term_holds(ty, cx, |v: ValueId| 0u128));
        } else if tx.0 {
            let b = lemma_meeting_label(ty);
            let g = |v: ValueId| b;
            assert(term_holds(tx, cx, g) && term_holds(ty, cx, g));
        } else if ty.0 {
            let a = lemma_meeting_label(tx);
            let g = |v: ValueId| a;
            assert(term_holds(tx, cy, g) && term_holds(ty, cy, g));
        } else if tx.1 != ty.1 {
            let a = lemma_meeting_label(tx);
            let b = lemma_meeting_label(ty);
            let g = |v: ValueId| if v == tx.1 { a } else { b };
            assert(term_holds(tx, cx, g) && term_holds(ty, cx, g));
        } else if tx.3 && ty.3 {
            let i = choose|i: int| 0 <= i < tx.2.len() && ty.2.contains(#[trigger] tx.2[i]);
            let a = tx.2[i];
            assert(tx.2.contains(a));
            let g = |v: ValueId| a;
            assert(term_holds(tx, cx, g) && term_holds(ty, cx, g));
        } else if tx.3 {
            let i = choose|i: int| 0 <= i < tx.2.len() && !ty.2.contains(#[trigger] tx.2[i]);
            let a = tx.2[i];
            assert(tx.2.contains(a));
            let g = |v: ValueId| a;
            assert(term_holds(tx, cx, g) && term_holds(ty, cx, g));
        } else if ty.3 {
            let i = choose|i: int| 0 <= i < ty.2.len() && !tx.2.contains(#[trigger] ty.2[i]);
            let a = ty.2[i];
            assert(ty.2.contains(a));
            let g = |v: ValueId| a;
            assert(term_holds(tx, cx, g) && term_holds(ty, cx, g));
        } else {
            let a = lemma_fresh_label(tx.2 + ty.2);
            assert(!tx.2.contains(a)) by {
                if tx.2.contains(a) {
                    let i = choose|i: int| 0 <= i < tx.2.len() && tx.2[i] == a;
                    assert((tx.2 + ty.2)[i] == a);
                }
            }
            assert(!ty.2.contains(a)) by {
                if ty.2.contains(a) {
                    let i = choose|i: int| 0 <= i < ty.2.len() && ty.2[i] == a;
                    assert((tx.2 + ty.2)[tx.2.len() + i] == a);
                }
            }
            let g = |v: ValueId| a;
            assert(term_holds(tx, cx, g) && term_holds(ty, cx, g));
        }
    }
}

/// Two paths that no cycle can take both of.
pub open spec fn disjoint(a: Seq<(bool, ValueId, Seq<u128>, bool)>, b: Seq<(bool, ValueId, Seq<u128>, bool)>) -> bool {
    exists|i: int, j: int| 0 <= i < a.len() && 0 <= j < b.len() && #[trigger] exclusive(a[i], b[j])
}

/// The index of the first claim on `name`, or -1.
pub open spec fn claim_ix(claims: Seq<(String, Vec<Vec<PathTerm>>)>, name: Seq<char>) -> int
    decreases claims.len(),
{
    if claims.len() == 0 {
        -1
    } else {
        let r = claim_ix(claims.drop_last(), name);
        if r >= 0 {
            r
        } else if claims.last().0@ == name {
            claims.len() - 1
        } else {
            -1
        }
    }
}

proof fn lemma_claim_ix(claims: Seq<(String, Vec<Vec<PathTerm>>)>, name: Seq<char>)
    ensures
        -1 <= claim_ix(claims, name) < claims.len(),
        claim_ix(claims, name) >= 0 ==> claims[claim_ix(claims, name)].0@ == name,
        claim_ix(claims, name) < 0 ==> forall|k: int| 0 <= k < claims.len() ==> #[trigger] claims[k].0@ != name,
    decreases claims.len(),
{
    if claims.len() > 0 {
        lemma_claim_ix(claims.drop_last(), name);
        if claim_ix(claims.drop_last(), name) >= 0 {
            assert(claims.drop_last()[claim_ix(claims.drop_last(), name)] == claims[claim_ix(claims.drop_last(), name)]);
        } else {
            assert forall|k: int| 0 <= k < claims.len() - 1 implies #[trigger] claims[k].0@ != name by {
                assert(claims.drop_last()[k] == claims[k]);
            }
        }
    }
}

/// Whether claiming `name` on `path` would claim it twice in one cycle:
/// some earlier claim's path is not disjoint from it, or, with no earlier
/// claim recorded, the pipe was already taken by a blocking operation.
pub open spec fn conflicts(claims: Seq<(String, Vec<Vec<PathTerm>>)>, name: Seq<char>, path: Seq<PathTerm>, occupied: bool) -> bool {
    let ix = claim_ix(claims, name);
    if ix >= 0 {
        exists|k: int| 0 <= k < claims[ix].1@.len() && !disjoint(path_view(#[trigger] claims[ix].1@[k]@), path_view(path))
    } else {
        occupied
    }
}

fn clone_term(t: &PathTerm) -> (r: PathTerm)
    ensures
        term_view(r) == term_view(*t),
{
    match t {
        PathTerm::Cond { value, taken } => PathTerm::Cond { value: *value, taken: *taken },
        PathTerm::Labels { scrutinee, labels, taken } => {
            let l = labels.clone();
            proof {
                assert(l@ =~= labels@);
            }
            PathTerm::Labels { scrutinee: *scrutinee, labels: l, taken: *taken }
        },
    }
}

fn clone_path(p: &Vec<PathTerm>) -> (r: Vec<PathTerm>)
    ensures
        path_view(r@) == path_view(p@),
{
    let mut r: Vec<PathTerm> = Vec::new();
    let mut i: usize = 0;
    while i < p.len()
        invariant
            i <= p@.len(),
            path_view(r@) == path_view(p@).take(i as int),
        decreases p@.len() - i,
    {
        let ghost before = r@;
        r.push(clone_term(&p[i]));
        proof {
            assert(path_view(r@) =~= path_view(before).push(term_view(p@[i as int])));
            assert(path_view(p@).take(i + 1) =~= path_view(p@).take(i as int).push(term_view(p@[i as int])));
        }
        i = i + 1;
    }
    proof {
        assert(path_view(p@).take(i as int) =~= path_view(p@));
    }
    r
}

fn holds_label(v: &Vec<u128>, x: u128) -> (r: bool)
    ensures
        r == v@.contains(x),
{
    let mut k: usize = 0;
    while k < v.len()
        invariant
            k <= v@.len(),
            forall|j: int| 0 <= j < k ==> v@[j] != x,
        decreases v@.len() - k,
    {
        if v[k] == x {
            return true;
        }
        k = k + 1;
    }
    false
}

/// Every label of `a` is (`inside`) or is not (`!inside`) among `b`.
fn all_labels(a: &Vec<u128>, b: &Vec<u128>, inside: bool) -> (r: bool)
    ensures
        inside ==> r == all_in(a@, b@),
        !inside ==> r == none_in(a@, b@),
{
    let mut k: usize = 0;
    while k < a.len()
        invariant
            k <= a@.len(),
            forall|i: int| 0 <= i < k ==> b@.contains(#[trigger] a@[i]) == inside,
        decreases a@.len() - k,
    {
        if holds_label(b, a[k]) != inside {
            proof {
                assert(b@.contains(a@[k as int]) != inside);
            }
            return false;
        }
        k = k + 1;
    }
    true
}

fn terms_exclusive(x: &PathTerm, y: &PathTerm) -> (r: bool)
    ensures
        r == exclusive(term_view(*x), term_view(*y)),
{
    match x {
        PathTerm::Cond { value: a, taken: s } => match y {
            PathTerm::Cond { value: b, taken: t } => a.0 == b.0 && *s != *t,
            PathTerm::Labels { .. } => false,
        },
        PathTerm::Labels { scrutinee: a, labels: la, taken: s } => match y {
            PathTerm::Cond { .. } => false,
            PathTerm::Labels { scrutinee: b, labels: lb, taken: t } => {
                if a.0 != b.0 {
                    false
                } else if *s && *t {
                    all_labels(la, lb, false)
                } else if *s && !*t {
                    all_labels(la, lb, true)
                } else if !*s && *t {
                    all_labels(lb, la, true)
                } else {
                    false
                }
            },
        },
    }
}

fn paths_disjoint(a: &Vec<PathTerm>, b: &Vec<PathTerm>) -> (r: bool)
    ensures
        r == disjoint(path_view(a@), path_view(b@)),
{
    let ghost av = path_view(a@);
    let ghost bv = path_view(b@);
    let mut i: usize = 0;
    while i < a.len()
        invariant
            i <= a@.len(),
            av == path_view(a@),
            bv == path_view(b@),
            forall|x: int, y: int| 0 <= x < i && 0 <= y < bv.len() ==> !#[trigger] exclusive(av[x], bv[y]),
        decreases a@.len() - i,
    {
        let mut j: usize = 0;
        while j < b.len()
            invariant
                j <= b@.len(),
                i < a@.len(),
                av == path_view(a@),
                bv == path_view(b@),
                forall|x: int, y: int| 0 <= x < i && 0 <= y < bv.len() ==> !#[trigger] exclusive(av[x], bv[y]),
                forall|y: int| 0 <= y < j ==> !#[trigger] exclusive(av[i as int], bv[y]),
            decreases b@.len() - j,
        {
            if terms_exclusive(&a[i], &b[j]) {
                proof {
                    assert(exclusive(av[i as int], bv[j as int]));
                }
                return true;
            }
            j = j + 1;
        }
        i = i + 1;
    }
    false
}

impl Lowerer {
    /// Records a nonblocking operation on pipe `name` from the current path,
    /// or reports a second transfer in one cycle.
    ///
    /// Two operations on one pipe are fine when no cycle can take both of
    /// their paths -- the two arms of an `if`, or two `match` arms with no
    /// label in common. `occupied` is whether a blocking operation already
    /// holds the pipe, which no path narrows.
    pub fn claim_transfer(&mut self, name: &str, occupied: bool, receive: bool, sink: &mut DiagSink) -> (r: Option<()>)
        ensures
            *final(sink).map == *old(sink).map,
            final(self).values == old(self).values,
            final(self).path == old(self).path,
            final(self).pipes == old(self).pipes,
            final(self).asserts == old(self).asserts,
            final(self).anchors == old(self).anchors,
            if conflicts(old(self).transfer_paths@, name@, old(self).path_view(), occupied) {
                &&& r is None
                &&& final(self).transfer_paths == old(self).transfer_paths
                &&& saids(final(sink).diags@) == saids(old(sink).diags@).push(error_at(crate::ir_match::here_of(*old(self)),
                    "`"@ + name@ + "` is "@ + (if receive { "received from"@ } else { "sent to"@ })
                        + " more than once in one cycle"@))
            } else {
                let ix = claim_ix(old(self).transfer_paths@, name@);
                &&& r is Some
                &&& saids(final(sink).diags@) == saids(old(sink).diags@)
                &&& if ix >= 0 {
                    &&& final(self).transfer_paths@.len() == old(self).transfer_paths@.len()
                    &&& forall|k: int| 0 <= k < old(self).transfer_paths@.len() && k != ix ==> #[trigger] final(self).transfer_paths@[k] == old(self).transfer_paths@[k]
                    &&& final(self).transfer_paths@[ix].0@ == name@
                    &&& final(self).transfer_paths@[ix].1@.len() == old(self).transfer_paths@[ix].1@.len() + 1
                    &&& forall|k: int| 0 <= k < old(self).transfer_paths@[ix].1@.len() ==> #[trigger] final(self).transfer_paths@[ix].1@[k] == old(self).transfer_paths@[ix].1@[k]
                    &&& path_view(final(self).transfer_paths@[ix].1@.last()@) == path_view(old(self).path_view())
                } else {
                    &&& final(self).transfer_paths@.len() == old(self).transfer_paths@.len() + 1
                    &&& forall|k: int| 0 <= k < old(self).transfer_paths@.len() ==> #[trigger] final(self).transfer_paths@[k] == old(self).transfer_paths@[k]
                    &&& final(self).transfer_paths@.last().0@ == name@
                    &&& final(self).transfer_paths@.last().1@.len() == 1
                    &&& path_view(final(self).transfer_paths@.last().1@[0]@) == path_view(old(self).path_view())
                }
            },
    {
        proof {
            lemma_claim_ix(self.transfer_paths@, name@);
        }
        let ghost claims = self.transfer_paths@;
        let name_s = String::from_str(name);
        let mut found: Option<usize> = None;
        let mut k: usize = 0;
        while k < self.transfer_paths.len()
            invariant
                k <= claims.len(),
                claims == self.transfer_paths@,
                name_s@ == name@,
                found is None ==> forall|j: int| 0 <= j < k ==> #[trigger] claims[j].0@ != name@,
                found matches Some(f) ==> f as int == claim_ix(claims, name@),
                -1 <= claim_ix(claims, name@) < claims.len(),
                claim_ix(claims, name@) >= 0 ==> claims[claim_ix(claims, name@)].0@ == name@,
                claim_ix(claims, name@) < 0 ==> forall|j: int| 0 <= j < claims.len() ==> #[trigger] claims[j].0@ != name@,
            decreases claims.len() - k,
        {
            if found.is_none() && self.transfer_paths[k].0 == name_s {
                proof {
                    lemma_claim_ix_first(claims, name@, k as int);
                }
                found = Some(k);
            }
            k = k + 1;
        }
        let conflict = match found {
            Some(f) => {
                let paths = &self.transfer_paths[f].1;
                let mut any = false;
                let mut j: usize = 0;
                while j < paths.len()
                    invariant
                        j <= paths@.len(),
                        any <==> exists|q: int| 0 <= q < j && !disjoint(path_view(#[trigger] paths@[q]@), path_view(self.path@)),
                    decreases paths@.len() - j,
                {
                    if !paths_disjoint(&paths[j], &self.path) {
                        any = true;
                    }
                    j = j + 1;
                }
                any
            },
            None => occupied,
        };
        if conflict {
            let mut msg = String::from_str("`");
            msg.append(name);
            msg.append("` is ");
            msg.append(if receive { "received from" } else { "sent to" });
            msg.append(" more than once in one cycle");
            let at = self.here();
            let ghost before = sink.diags@;
            sink.err_span(at, msg);
            proof {
                assert(sink.diags@ =~= before.push(sink.diags@.last()));
                assert(saids(sink.diags@) =~= saids(before).push(error_at(at, msg@)));
            }
            return None;
        }
        let p = clone_path(&self.path);
        match found {
            Some(f) => {
                self.transfer_paths[f].1.push(p);
            },
            None => {
                let mut v: Vec<Vec<PathTerm>> = Vec::new();
                v.push(p);
                self.transfer_paths.push((String::from_str(name), v));
            },
        }
        Some(())
    }
}

/// A name found at `k` with none before it is the first.
proof fn lemma_claim_ix_first(claims: Seq<(String, Vec<Vec<PathTerm>>)>, name: Seq<char>, k: int)
    requires
        0 <= k < claims.len(),
        claims[k].0@ == name,
        forall|j: int| 0 <= j < k ==> #[trigger] claims[j].0@ != name,
    ensures
        claim_ix(claims, name) == k,
    decreases claims.len(),
{
    if k < claims.len() - 1 {
        lemma_claim_ix_first(claims.drop_last(), name, k);
        assert(claims.drop_last()[k] == claims[k]);
    } else {
        lemma_claim_ix(claims.drop_last(), name);
        assert forall|j: int| 0 <= j < claims.drop_last().len() implies #[trigger] claims.drop_last()[j].0@ != name by {
            assert(claims.drop_last()[j] == claims[j]);
        }
    }
}

/// `fired`, narrowed to `path` when there is one.
pub open spec fn narrowed(vals: Seq<ValueDef>, fired: ValueId, path: Option<ValueId>) -> (Seq<ValueDef>, ValueId) {
    match path {
        None => (vals, fired),
        Some(p) => {
            let op = Op::Bin { op: BinOp::And, lhs: fired, rhs: p };
            (emitted(vals, bool_ty(), op), emit_result(vals, bool_ty(), op))
        },
    }
}

/// What `request_pipe` leaves: the values, its answer, and the pipe's new
/// offered value and send guard.
pub open spec fn requested(vals: Seq<ValueDef>, terms: Seq<PathTerm>, p: PipeInfo, data: Option<ValueId>) -> (Seq<ValueDef>, ValueId, Option<ValueId>, Option<ValueId>) {
    let (v1, path) = path_value(vals, terms);
    let (v2, result) = narrowed(v1, p.fired->0, path);
    let (v3, sent) = match data {
        None => (v2, p.sent),
        Some(value) => match (p.sent, path) {
            (Some(old), Some(cond)) => {
                let op = Op::Mux { cond, then_val: value, else_val: old };
                (emitted(v2, p.ty, op), Some(emit_result(v2, p.ty, op)))
            },
            _ => (v2, Some(value)),
        },
    };
    let (v4, guard) = if !p.used {
        (v3, path)
    } else {
        match (p.send_guard, path) {
            (Some(lhs), Some(rhs)) => {
                let op = Op::Bin { op: BinOp::Or, lhs, rhs };
                (emitted(v3, bool_ty(), op), Some(emit_result(v3, bool_ty(), op)))
            },
            _ => (v3, None),
        }
    };
    (v4, result, sent, guard)
}

impl Lowerer {
    /// A nonblocking operation on pipe `ix` from the current path: whether it
    /// transferred, narrowed to that path. A send also offers `data` -- on its
    /// path, and what an earlier send offered on the others -- and the pipe's
    /// send guard grows by this path.
    pub fn request_pipe(&mut self, ix: usize, data: Option<ValueId>) -> (r: ValueId)
        requires
            old(self).inv(),
            old(self).room(path_cost(old(self).path_view()) + 3),
            ix < old(self).pipes@.len(),
            old(self).pipes@[ix as int].fired is Some,
            data matches Some(v) ==> vid_ok(v, old(self).vals().len()),
        ensures
            final(self).inv(),
            final(self).ports_view() == old(self).ports_view(),
            final(self).mems == old(self).mems,
            final(self).asserts == old(self).asserts,
            final(self).path_view() == old(self).path_view(),
            final(self).pipes@.len() == old(self).pipes@.len(),
            forall|k: int| 0 <= k < old(self).pipes@.len() && k != ix ==> #[trigger] final(self).pipes@[k] == old(self).pipes@[k],
            ({
                let p = old(self).pipes@[ix as int];
                let q = final(self).pipes@[ix as int];
                &&& (final(self).vals(), r, q.sent, q.send_guard) == requested(old(self).vals(), old(self).path_view(), p, data)
                &&& q == PipeInfo { used: true, sent: q.sent, send_guard: q.send_guard, ..p }
            }),
    {
        let ghost s0 = *self;
        let used = self.pipes[ix].used;
        let sent = self.pipes[ix].sent;
        let guard = self.pipes[ix].send_guard;
        let fired = match self.pipes[ix].fired {
            Some(v) => v,
            None => {
                proof { assert(false); }
                return ValueId(0);
            },
        };
        let ty = self.pipes[ix].ty.clone();
        let path = self.materialise_path();
        let ghost s1 = *self;
        let result = crate::lower_path::narrow_to_path(self, fired, path);
        let ghost s2 = *self;
        let new_sent = match data {
            None => sent,
            Some(value) => match (sent, path) {
                (Some(old_value), Some(cond)) => Some(self.emit(ty, Op::Mux { cond, then_val: value, else_val: old_value })),
                _ => Some(value),
            },
        };
        let ghost s3 = *self;
        let new_guard = self.union_transfer_guard(used, guard, path);
        let ghost s4 = *self;
        proof {
            assert(grows(s0.vals(), s1.vals()));
            lemma_emitted_grows_chain(s1.vals(), s2.vals(), s3.vals(), s4.vals());
        }
        self.pipes[ix].sent = new_sent;
        self.pipes[ix].send_guard = new_guard;
        self.pipes[ix].used = true;
        proof {
            assert forall|j: int| 0 <= j < self.pipes@.len() implies crate::lowerer::pipe_ok(#[trigger] self.pipes@[j], self.vals().len(), self.ports_view().len()) by {
                if j != ix {
                    assert(self.pipes@[j] == s4.pipes@[j]);
                }
            }
        }
        result
    }
}

proof fn lemma_emitted_grows_chain(a: Seq<ValueDef>, b: Seq<ValueDef>, c: Seq<ValueDef>, d: Seq<ValueDef>)
    requires
        grows(a, b),
        grows(b, c),
        grows(c, d),
    ensures
        grows(a, d),
{
    assert forall|i: int| 0 <= i < a.len() implies #[trigger] d[i].id == a[i].id && d[i].ty == a[i].ty && d[i].op == a[i].op by {
        assert(b[i].op == a[i].op && c[i].op == b[i].op);
    }
}

} // verus!
