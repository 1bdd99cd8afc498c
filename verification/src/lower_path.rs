// The path the statements being lowered sit on, the statement they are in,
// and the assertions that depend on both.
//
// The path is kept as a DESCRIPTION rather than as emitted values, because
// only assertions ever consult it. Materialising each branch guard eagerly
// would put a comparison and an `and` into the graph for every `if` and every
// match arm in the program.

use vstd::prelude::*;
use crate::ir::{ValueId, BinOp, CmpOp, UnOp, Op, ValueDef, Assertion, op_ok, vid_ok, mem_ok};
use crate::ty::{Ty, bool_ty, width};
use crate::diag::Span;
use crate::driver::nowhere;
use crate::lowerer::{
    Lowerer, PathTerm, bool_type, emitted, emit_result, term_ok, lemma_emitted, grows,
    no_reg_reads, pipe_ok,
};

verus! {

/// `!v`.
pub open spec fn not_of(vals: Seq<ValueDef>, v: ValueId) -> (Seq<ValueDef>, ValueId) {
    let op = Op::Un { op: UnOp::LogNot, arg: v };
    (emitted(vals, bool_ty(), op), emit_result(vals, bool_ty(), op))
}

/// `a op b` on one bit.
pub open spec fn bin_of(vals: Seq<ValueDef>, b: BinOp, lhs: ValueId, rhs: ValueId) -> (Seq<ValueDef>, ValueId) {
    let op = Op::Bin { op: b, lhs, rhs };
    (emitted(vals, bool_ty(), op), emit_result(vals, bool_ty(), op))
}

/// What `any_equal` builds: `v == labels[0] | v == labels[1] | ...` from
/// the left, each label a constant of `v`'s type; `acc` is what has been
/// built so far.
pub open spec fn any_equal_from(vals: Seq<ValueDef>, v: ValueId, ty: Ty, labels: Seq<u128>, acc: Option<ValueId>) -> (Seq<ValueDef>, Option<ValueId>)
    decreases labels.len(),
{
    if labels.len() == 0 {
        (vals, acc)
    } else {
        let konst = Op::Const(labels[0]);
        let v1 = emitted(vals, ty, konst);
        let k = emit_result(vals, ty, konst);
        let cmp = Op::Cmp { op: CmpOp::Eq, lhs: v, rhs: k };
        let v2 = emitted(v1, bool_ty(), cmp);
        let eq = emit_result(v1, bool_ty(), cmp);
        let (v3, next) = match acc {
            None => (v2, eq),
            Some(prev) => bin_of(v2, BinOp::Or, prev, eq),
        };
        any_equal_from(v3, v, ty, labels.drop_first(), Some(next))
    }
}

/// The values after `any_equal(v, labels)`, and its answer: `0` for no labels.
pub open spec fn any_equal_spec(vals: Seq<ValueDef>, v: ValueId, labels: Seq<u128>) -> (Seq<ValueDef>, ValueId) {
    let (v1, acc) = any_equal_from(vals, v, vals[v.0 as int].ty, labels, None);
    match acc {
        Some(a) => (v1, a),
        None => (emitted(v1, bool_ty(), Op::Const(0)), emit_result(v1, bool_ty(), Op::Const(0))),
    }
}

/// The guard one path term stands for, before any negation.
pub open spec fn guard_of(vals: Seq<ValueDef>, t: PathTerm) -> (Seq<ValueDef>, ValueId) {
    match t {
        PathTerm::Cond { value, .. } => (vals, value),
        PathTerm::Labels { scrutinee, labels, .. } => any_equal_spec(vals, scrutinee, labels@),
    }
}

pub open spec fn taken_of(t: PathTerm) -> bool {
    match t {
        PathTerm::Cond { taken, .. } => taken,
        PathTerm::Labels { taken, .. } => taken,
    }
}

/// What `materialise_path` builds over the first `n` terms: the guards,
/// each negated where its branch was not taken, and-ed outermost first.
pub open spec fn path_value(vals: Seq<ValueDef>, terms: Seq<PathTerm>) -> (Seq<ValueDef>, Option<ValueId>)
    decreases terms.len(),
{
    if terms.len() == 0 {
        (vals, None)
    } else {
        let (v0, outer) = path_value(vals, terms.drop_last());
        let t = terms.last();
        let (v1, g) = guard_of(v0, t);
        let (v2, guard) = if taken_of(t) { (v1, g) } else { not_of(v1, g) };
        match outer {
            None => (v2, Some(guard)),
            Some(o) => {
                let (v3, both) = bin_of(v2, BinOp::And, o, guard);
                (v3, Some(both))
            },
        }
    }
}

impl Lowerer {
    /// Enters the `then` (or `else`) side of an `if`. The answer is the depth
    /// to hand back to `pop_path`.
    pub fn push_cond(&mut self, value: ValueId, taken: bool) -> (depth: usize)
        requires
            old(self).inv(),
            vid_ok(value, old(self).vals().len()),
        ensures
            final(self).inv(),
            final(self).path_view() == old(self).path_view().push(PathTerm::Cond { value, taken }),
            depth == old(self).path_view().len(),
            final(self).vals() == old(self).vals(),
            final(self).mems == old(self).mems,
            final(self).slots() == old(self).slots(),
            final(self).asserts == old(self).asserts,
    {
        self.path.push(PathTerm::Cond { value, taken });
        proof {
            assert forall|j: int| 0 <= j < self.path@.len() implies term_ok(#[trigger] self.path_view()[j], self.vals().len()) by {
                if j < old(self).path@.len() {
                    assert(self.path@[j] == old(self).path@[j]);
                    assert(term_ok(old(self).path_view()[j], self.vals().len()));
                }
            }
        }
        self.path.len() - 1
    }

    /// Enters a match arm: the scrutinee carries one of `labels`, or -- for
    /// the catch-all -- none of the labels the earlier arms claimed.
    pub fn push_labels(&mut self, scrutinee: ValueId, labels: Vec<u128>, taken: bool) -> (depth: usize)
        requires
            old(self).inv(),
            vid_ok(scrutinee, old(self).vals().len()),
        ensures
            final(self).inv(),
            final(self).path_view() == old(self).path_view().push(PathTerm::Labels { scrutinee, labels, taken }),
            depth == old(self).path_view().len(),
            final(self).vals() == old(self).vals(),
            final(self).mems == old(self).mems,
            final(self).slots() == old(self).slots(),
            final(self).asserts == old(self).asserts,
    {
        self.path.push(PathTerm::Labels { scrutinee, labels, taken });
        proof {
            assert forall|j: int| 0 <= j < self.path@.len() implies term_ok(#[trigger] self.path_view()[j], self.vals().len()) by {
                if j < old(self).path@.len() {
                    assert(self.path@[j] == old(self).path@[j]);
                    assert(term_ok(old(self).path_view()[j], self.vals().len()));
                }
            }
        }
        self.path.len() - 1
    }

    /// Leaves every branch entered at `depth` or deeper.
    pub fn pop_path(&mut self, depth: usize)
        requires
            old(self).inv(),
        ensures
            final(self).inv(),
            final(self).path_view() == (if depth < old(self).path_view().len() {
                old(self).path_view().take(depth as int)
            } else {
                old(self).path_view()
            }),
            final(self).vals() == old(self).vals(),
            final(self).mems == old(self).mems,
            final(self).slots() == old(self).slots(),
            final(self).asserts == old(self).asserts,
    {
        self.path.truncate(depth);
        proof {
            assert forall|j: int| 0 <= j < self.path@.len() implies term_ok(#[trigger] self.path_view()[j], self.vals().len()) by {
                assert(self.path@[j] == old(self).path@[j]);
            }
        }
    }

    fn logical_not(&mut self, v: ValueId) -> (r: ValueId)
        requires
            old(self).inv(),
            old(self).room(1),
            vid_ok(v, old(self).vals().len()),
        ensures
            final(self).inv(),
            final(self).adds(old(self), 1),
            (final(self).vals(), r) == not_of(old(self).vals(), v),
            vid_ok(r, final(self).vals().len()),
    {
        let r = self.emit(bool_type(), Op::Un { op: UnOp::LogNot, arg: v });
        proof {
            lemma_emitted(old(self).vals(), bool_ty(), Op::Un { op: UnOp::LogNot, arg: v });
        }
        r
    }
}

/// Adding in two steps is adding.
pub proof fn lemma_adds_trans(a: &Lowerer, b: &Lowerer, c: &Lowerer, k1: nat, k2: nat)
    requires
        b.adds(a, k1),
        c.adds(b, k2),
    ensures
        c.adds(a, k1 + k2),
{
    assert forall|i: int| #![trigger c.vals()[i]] a.vals().len() <= i < c.vals().len() implies !(c.vals()[i].op is RegRead) by {
        if i < b.vals().len() {
            assert(c.vals()[i].op == b.vals()[i].op);
            assert(!(b.vals()[i].op is RegRead));
        }
    }
    assert forall|i: int| #![trigger c.vals()[i]] 0 <= i < a.vals().len() implies c.vals()[i].id == a.vals()[i].id
        && c.vals()[i].ty == a.vals()[i].ty && c.vals()[i].op == a.vals()[i].op by {
        assert(b.vals()[i].op == a.vals()[i].op);
    }
}

/// Nothing added is adding nothing.
pub proof fn lemma_adds_none(a: &Lowerer)
    ensures
        a.adds(a, 0),
{
}

impl Lowerer {
    /// `v == labels[0] | v == labels[1] | ...`, and `0` for no labels.
    fn any_equal(&mut self, v: ValueId, labels: &Vec<u128>) -> (r: ValueId)
        requires
            old(self).inv(),
            old(self).room(3 * labels@.len() + 1),
            vid_ok(v, old(self).vals().len()),
        ensures
            final(self).inv(),
            final(self).adds(old(self), 3 * labels@.len() + 1),
            (final(self).vals(), r) == any_equal_spec(old(self).vals(), v, labels@),
            vid_ok(r, final(self).vals().len()),
    {
        let ghost vals0 = self.vals();
        let ty = self.ty_of(v);
        let mut acc: Option<ValueId> = None;
        let mut i: usize = 0;
        proof {
            assert(labels@.skip(0) =~= labels@);
            lemma_adds_none(self);
        }
        while i < labels.len()
            invariant
                self.inv(),
                i <= labels@.len(),
                old(self).room(3 * labels@.len() + 1),
                self.adds(old(self), 3 * i as nat),
                vid_ok(v, self.vals().len()),
                ty == vals0[v.0 as int].ty,
                vals0 == old(self).vals(),
                match acc {
                    Some(a) => vid_ok(a, self.vals().len()),
                    None => i == 0,
                },
                any_equal_from(vals0, v, ty, labels@, None) == any_equal_from(self.vals(), v, ty, labels@.skip(i as int), acc),
            decreases labels@.len() - i,
        {
            let ghost before = *self;
            let ghost vb = self.vals();
            proof {
                assert(labels@.skip(i as int).drop_first() =~= labels@.skip(i + 1));
                assert(labels@.skip(i as int)[0] == labels@[i as int]);
            }
            let k = labels[i];
            let konst = self.emit(ty.clone(), Op::Const(k));
            proof { lemma_emitted(vb, ty, Op::Const(k)); }
            let ghost v1 = self.vals();
            let ghost s1 = *self;
            let eq = self.emit(bool_type(), Op::Cmp { op: CmpOp::Eq, lhs: v, rhs: konst });
            proof { lemma_emitted(v1, bool_ty(), Op::Cmp { op: CmpOp::Eq, lhs: v, rhs: konst }); }
            let next = match acc {
                None => eq,
                Some(prev) => {
                    let ghost v2 = self.vals();
                    let r = self.emit(bool_type(), Op::Bin { op: BinOp::Or, lhs: prev, rhs: eq });
                    proof { lemma_emitted(v2, bool_ty(), Op::Bin { op: BinOp::Or, lhs: prev, rhs: eq }); }
                    r
                },
            };
            acc = Some(next);
            proof {
                lemma_adds_trans(old(self), &before, self, 3 * i as nat, 3);
            }
            i = i + 1;
        }
        proof {
            assert(labels@.skip(i as int).len() == 0);
        }
        match acc {
            Some(a) => a,
            None => {
                let ghost vb = self.vals();
                let r = self.emit(bool_type(), Op::Const(0));
                proof { lemma_emitted(vb, bool_ty(), Op::Const(0)); }
                r
            },
        }
    }
}

/// An upper bound on how many values materialising a path adds.
pub open spec fn path_cost(terms: Seq<PathTerm>) -> nat
    decreases terms.len(),
{
    if terms.len() == 0 {
        0
    } else {
        path_cost(terms.drop_last()) + match terms.last() {
            PathTerm::Cond { .. } => 2nat,
            PathTerm::Labels { labels, .. } => 3 * labels@.len() + 3,
        }
    }
}

/// The condition an assertion records: `!path | cond`, or `cond` alone at the
/// top level.
pub open spec fn guarded_spec(vals: Seq<ValueDef>, terms: Seq<PathTerm>, cond: ValueId) -> (Seq<ValueDef>, ValueId) {
    let (v1, p) = path_value(vals, terms);
    match p {
        None => (v1, cond),
        Some(pv) => {
            let (v2, off) = not_of(v1, pv);
            bin_of(v2, BinOp::Or, off, cond)
        },
    }
}

impl Lowerer {
    /// Builds the value of the current path, emitting for the first time.
    /// `None` at the top level, where nothing narrows it.
    pub fn materialise_path(&mut self) -> (r: Option<ValueId>)
        requires
            old(self).inv(),
            old(self).room(path_cost(old(self).path_view())),
        ensures
            final(self).inv(),
            final(self).adds(old(self), path_cost(old(self).path_view())),
            (final(self).vals(), r) == path_value(old(self).vals(), old(self).path_view()),
            match r {
                Some(v) => vid_ok(v, final(self).vals().len()),
                None => old(self).path_view().len() == 0,
            },
    {
        let ghost terms = self.path_view();
        let ghost vals0 = self.vals();
        let mut acc: Option<ValueId> = None;
        let mut i: usize = 0;
        let n = self.path.len();
        proof {
            assert(terms.take(0) =~= Seq::<PathTerm>::empty());
            lemma_adds_none(self);
        }
        while i < n
            invariant
                self.inv(),
                n == terms.len(),
                i <= n,
                terms == self.path_view(),
                terms == old(self).path_view(),
                vals0 == old(self).vals(),
                old(self).room(path_cost(terms)),
                self.adds(old(self), path_cost(terms.take(i as int))),
                (self.vals(), acc) == path_value(vals0, terms.take(i as int)),
                match acc {
                    Some(a) => vid_ok(a, self.vals().len()),
                    None => i == 0,
                },
            decreases n - i,
        {
            let ghost before = *self;
            let ghost t = terms[i as int];
            proof {
                assert(terms.take(i + 1).drop_last() =~= terms.take(i as int));
                assert(terms.take(i + 1).last() == t);
                lemma_path_cost_prefix(terms, i + 1);
                assert(term_ok(self.path_view()[i as int], self.vals().len()));
            }
            let (value, labels, taken) = match &self.path[i] {
                PathTerm::Cond { value, taken } => (*value, None, *taken),
                PathTerm::Labels { scrutinee, labels, taken } => (*scrutinee, Some(labels.clone()), *taken),
            };
            let mut guard = match labels {
                None => value,
                Some(ls) => {
                    proof {
                        assert(ls@ =~= t->labels@);
                    }
                    self.any_equal(value, &ls)
                },
            };
            let ghost mid = *self;
            proof {
                lemma_adds_trans(old(self), &before, &mid, path_cost(terms.take(i as int)),
                    match t { PathTerm::Cond { .. } => 0nat, PathTerm::Labels { labels, .. } => 3 * labels@.len() + 1 });
            }
            if !taken {
                guard = self.logical_not(guard);
            } else {
                proof { lemma_adds_none(self); }
            }
            let ghost mid2 = *self;
            proof {
                lemma_adds_trans(old(self), &mid, &mid2,
                    path_cost(terms.take(i as int)) + match t { PathTerm::Cond { .. } => 0nat, PathTerm::Labels { labels, .. } => 3 * labels@.len() + 1 },
                    1);
            }
            let next = match acc {
                None => {
                    proof { lemma_adds_none(self); }
                    guard
                },
                Some(outer) => {
                    let ghost vb = self.vals();
                    let r = self.emit(bool_type(), Op::Bin { op: BinOp::And, lhs: outer, rhs: guard });
                    proof { lemma_emitted(vb, bool_ty(), Op::Bin { op: BinOp::And, lhs: outer, rhs: guard }); }
                    r
                },
            };
            proof {
                lemma_adds_trans(old(self), &mid2, self,
                    path_cost(terms.take(i as int)) + match t { PathTerm::Cond { .. } => 0nat, PathTerm::Labels { labels, .. } => 3 * labels@.len() + 1 } + 1,
                    1);
            }
            acc = Some(next);
            i = i + 1;
        }
        proof {
            assert(terms.take(n as int) =~= terms);
        }
        acc
    }

    /// Records an assertion, weakened by the path it sits on.
    ///
    /// `path -> cond` is `!path | cond`, so an assertion inside an `if` says
    /// nothing about the cycles the `if` did not take. Writing it as a plain
    /// `cond` would make every conditional assertion fire on the other branch.
    pub fn add_assert(&mut self, cond: ValueId, message: String, is_fatal: bool)
        requires
            old(self).inv(),
            old(self).room(path_cost(old(self).path_view()) + 2),
            vid_ok(cond, old(self).vals().len()),
        ensures
            final(self).inv(),
            final(self).vals() == guarded_spec(old(self).vals(), old(self).path_view(), cond).0,
            final(self).asserts@ == old(self).asserts@.push(Assertion {
                cond: guarded_spec(old(self).vals(), old(self).path_view(), cond).1,
                message,
                is_fatal,
            }),
            grows(old(self).vals(), final(self).vals()),
            final(self).path_view() == old(self).path_view(),
            final(self).mems == old(self).mems,
            final(self).slots() == old(self).slots(),
            final(self).pipes == old(self).pipes,
    {
        let path = self.materialise_path();
        let guarded = match path {
            None => cond,
            Some(p) => {
                let off_path = self.logical_not(p);
                let ghost vb = self.vals();
                let r = self.emit(bool_type(), Op::Bin { op: BinOp::Or, lhs: off_path, rhs: cond });
                proof { lemma_emitted(vb, bool_ty(), Op::Bin { op: BinOp::Or, lhs: off_path, rhs: cond }); }
                r
            },
        };
        self.asserts.push(Assertion { cond: guarded, message, is_fatal });
        proof {
            assert forall|j: int| 0 <= j < self.asserts@.len() implies vid_ok((#[trigger] self.asserts@[j]).cond, self.vals().len()) by {
                if j + 1 < self.asserts@.len() {
                    assert(self.asserts@[j] == old(self).asserts@[j]);
                }
            }
        }
    }

    /// Where the diagnostic being raised right now belongs: the innermost
    /// statement being lowered, or nowhere before lowering has entered one.
    pub fn here(&self) -> (s: Span)
        ensures
            s == (if self.anchors_view().len() > 0 {
                self.anchors_view().last()
            } else {
                Span { lo: 0, hi: 0 }
            }),
    {
        if self.anchors.len() > 0 {
            self.anchors[self.anchors.len() - 1]
        } else {
            nowhere()
        }
    }

    /// Enters a statement. The answer is the depth to hand back to
    /// `pop_anchor`, matching how `push_cond` and `pop_path` pair up.
    pub fn push_anchor(&mut self, at: Span) -> (depth: usize)
        requires
            old(self).inv(),
        ensures
            final(self).inv(),
            final(self).anchors_view() == old(self).anchors_view().push(at),
            depth == old(self).anchors_view().len(),
            final(self).vals() == old(self).vals(),
            final(self).path_view() == old(self).path_view(),
    {
        self.anchors.push(at);
        proof { lemma_inv_same_graph(old(self), self); }
        self.anchors.len() - 1
    }

    /// Leaves every statement entered at `depth` or deeper.
    pub fn pop_anchor(&mut self, depth: usize)
        requires
            old(self).inv(),
        ensures
            final(self).inv(),
            final(self).anchors_view() == (if depth < old(self).anchors_view().len() {
                old(self).anchors_view().take(depth as int)
            } else {
                old(self).anchors_view()
            }),
            final(self).vals() == old(self).vals(),
            final(self).path_view() == old(self).path_view(),
    {
        self.anchors.truncate(depth);
        proof { lemma_inv_same_graph(old(self), self); }
    }
}

/// The invariant reads only the graph and what refers into it.
pub proof fn lemma_inv_same_graph(old: &Lowerer, new: &Lowerer)
    requires
        old.inv(),
        new.vals() == old.vals(),
        new.ports_view() == old.ports_view(),
        new.pipes == old.pipes,
        new.mems == old.mems,
        new.slots() == old.slots(),
        new.path_view() == old.path_view(),
        new.asserts == old.asserts,
        new.stop_writes == old.stop_writes,
    ensures
        new.inv(),
{
    let n = new.vals().len();
    assert forall|j: int| 0 <= j < new.mems@.len() implies mem_ok(#[trigger] new.mems@[j], n)
        && width(new.mems@[j].elem) <= u32::MAX by {
        assert(mem_ok(old.mems@[j], n));
    }
    assert forall|j: int| 0 <= j < new.pipes@.len() implies pipe_ok(#[trigger] new.pipes@[j], n, new.ports_view().len()) by {
        assert(pipe_ok(old.pipes@[j], n, old.ports_view().len()));
    }
    assert forall|j: int| 0 <= j < new.path_view().len() implies term_ok(#[trigger] new.path_view()[j], n) by {
        assert(term_ok(old.path_view()[j], n));
    }
    assert forall|j: int| 0 <= j < new.asserts@.len() implies vid_ok((#[trigger] new.asserts@[j]).cond, n) by {
        assert(vid_ok(old.asserts@[j].cond, n));
    }
}

proof fn lemma_path_cost_prefix(terms: Seq<PathTerm>, i: int)
    requires
        0 <= i <= terms.len(),
    ensures
        path_cost(terms.take(i)) <= path_cost(terms),
    decreases terms.len() - i,
{
    if i < terms.len() {
        lemma_path_cost_prefix(terms, i + 1);
        assert(terms.take(i + 1).drop_last() =~= terms.take(i));
    } else {
        assert(terms.take(i) =~= terms);
    }
}

/// `fired`, narrowed to the branch the operation sat on.
///
/// The pipe is only claimed on that branch, so on any other one no transfer
/// happened and the answer has to say so: without this a `@try_rcv` inside an
/// `if` reports a transfer the handshake never performed.
pub fn narrow_to_path(low: &mut Lowerer, fired: ValueId, path: Option<ValueId>) -> (r: ValueId)
    requires
        old(low).inv(),
        old(low).room(1),
        vid_ok(fired, old(low).vals().len()),
        path matches Some(p) ==> vid_ok(p, old(low).vals().len()),
    ensures
        final(low).inv(),
        final(low).same_frame(old(low)),
        vid_ok(r, final(low).vals().len()),
        match path {
            None => r == fired && final(low).vals() == old(low).vals(),
            Some(p) => {
                let op = Op::Bin { op: BinOp::And, lhs: fired, rhs: p };
                &&& final(low).vals() == emitted(old(low).vals(), bool_ty(), op)
                &&& r == emit_result(old(low).vals(), bool_ty(), op)
            },
        },
{
    match path {
        None => fired,
        Some(p) => low.emit(bool_type(), Op::Bin { op: BinOp::And, lhs: fired, rhs: p }),
    }
}

} // verus!
