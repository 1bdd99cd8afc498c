// The builder every module is lowered through.
//
// A `Lowerer` holds the value graph of the module being built, its ports,
// pipes and memories, and the path the statements being lowered sit on.
// Everything that adds a value goes through `emit`, which is what keeps the
// graph in definition order: an operation may only name values that already
// exist, so the new value is numbered after all of them.

use vstd::prelude::*;
use crate::ir::{
    ValueId, PortId, PortDir, Port, BinOp, CmpOp, UnOp, Op, ValueDef, Memory, WritePort,
    Assertion, op_ok, values_ok, vid_ok, mem_ok, write_port_ok,
};
use crate::ty::{Ty, MemKind, width, bool_ty};
use crate::env::{Binding, Env};
use crate::diag::Span;
use crate::text::{dec, push_decimal};

verus! {

/// A salt: two bits, gray-coded, counting 0..3 over a buffer that holds two.
pub open spec fn salt_ty() -> Ty {
    Ty::UInt(2)
}

pub fn salt() -> (t: Ty)
    ensures
        t == salt_ty(),
{
    Ty::UInt(2)
}

pub fn bool_type() -> (t: Ty)
    ensures
        t == bool_ty(),
{
    Ty::UInt(1)
}

/// A pipe parameter, and what the body did with it.
///
/// The compiler writes the protocol, not the user: two entries with a salt
/// bit pair on each side. Each side reads only the other's REGISTERED bits,
/// so there is no combinational path across a module boundary in either
/// direction.
#[derive(Debug)]
pub struct PipeInfo {
    pub name: String,
    /// The PAYLOAD type. `data_port` is two of these.
    pub ty: Ty,
    pub is_input: bool,
    /// `<name>_wsalt` (producer's), `<name>_rsalt` (consumer's),
    /// `<name>_data` (two entries, entry 0 in the low half).
    pub wsalt_port: PortId,
    pub rsalt_port: PortId,
    pub data_port: PortId,
    /// The raw two-entry read of the data port; inputs only.
    pub data_value: Option<ValueId>,
    /// `data[ridx]` -- the entry this side is owed. Inputs only.
    pub item: Option<ValueId>,
    /// Inputs: the `rsalt` register.
    pub salt_reg: Option<usize>,
    /// The entry index this side is at, emitted once and reused.
    pub idx: Option<ValueId>,
    /// Can an item move: `!empty` at a consumer, `!full` at a producer.
    pub movable: Option<ValueId>,
    /// Set once the body has done a `@try_rcv` / `@try_send` on this pipe.
    pub used: bool,
    /// What `@try_send` offered; outputs only.
    pub sent: Option<ValueId>,
    /// The branch this pipe's operation sat on, if not at the top level.
    pub send_guard: Option<ValueId>,
    /// Inputs: this pipe transferred this cycle. Outputs: the slot can take a
    /// new item.
    pub fired: Option<ValueId>,
    /// Outputs only: the first of the three registers backing the slot.
    pub slot_reg: Option<usize>,
}

/// One narrowing of the path an assertion sits on.
#[derive(Debug)]
pub enum PathTerm {
    Cond { value: ValueId, taken: bool },
    Labels { scrutinee: ValueId, labels: Vec<u128>, taken: bool },
}

/// What a parameter of a `process` or a `sequence` is.
///
/// Data crosses the boundary through pipes and through nothing else. A plain
/// parameter is a CONSTANT: folded at elaboration, never a port.
#[derive(Debug, Clone, Copy, PartialEq, Eq, Structural)]
pub enum ParamKind {
    Pipe { is_input: bool },
    Constant,
}

pub open spec fn opt_ok(v: Option<ValueId>, n: nat) -> bool {
    match v {
        Some(v) => vid_ok(v, n),
        None => true,
    }
}

pub open spec fn pipe_ok(p: PipeInfo, n: nat, nports: nat) -> bool {
    &&& (p.wsalt_port.0 as nat) < nports
    &&& (p.rsalt_port.0 as nat) < nports
    &&& (p.data_port.0 as nat) < nports
    &&& opt_ok(p.data_value, n)
    &&& opt_ok(p.item, n)
    &&& opt_ok(p.idx, n)
    &&& opt_ok(p.movable, n)
    &&& opt_ok(p.sent, n)
    &&& opt_ok(p.send_guard, n)
    &&& opt_ok(p.fired, n)
    &&& 2 * width(p.ty) <= u32::MAX
}

pub open spec fn term_ok(t: PathTerm, n: nat) -> bool {
    match t {
        PathTerm::Cond { value, .. } => vid_ok(value, n),
        PathTerm::Labels { scrutinee, .. } => vid_ok(scrutinee, n),
    }
}

/// Whether `v` is the constant `k`.
pub open spec fn is_const_at(vals: Seq<ValueDef>, v: ValueId, k: u128) -> bool {
    (v.0 as int) < vals.len() && vals[v.0 as int].op == Op::Const(k)
}

/// What `emit` answers without adding anything: `x & 1`, `1 & x`, `x | 0`
/// and `0 | x` on one bit are `x`, and `c ? 1 : 0` on one bit is `c`.
pub open spec fn emit_folds(vals: Seq<ValueDef>, ty: Ty, op: Op) -> Option<ValueId> {
    match op {
        Op::Bin { op: b, lhs, rhs } => {
            if ty == bool_ty() && b == BinOp::And && is_const_at(vals, rhs, 1) {
                Some(lhs)
            } else if ty == bool_ty() && b == BinOp::And && is_const_at(vals, lhs, 1) {
                Some(rhs)
            } else if ty == bool_ty() && b == BinOp::Or && is_const_at(vals, rhs, 0) {
                Some(lhs)
            } else if ty == bool_ty() && b == BinOp::Or && is_const_at(vals, lhs, 0) {
                Some(rhs)
            } else {
                None
            }
        },
        Op::Mux { cond, then_val, else_val } => {
            if ty == bool_ty() && is_const_at(vals, then_val, 1) && is_const_at(vals, else_val, 0)
                && vals[cond.0 as int].ty == bool_ty() {
                Some(cond)
            } else {
                None
            }
        },
        _ => None,
    }
}

/// The values after `emit(ty, op)`.
pub open spec fn emitted(vals: Seq<ValueDef>, ty: Ty, op: Op) -> Seq<ValueDef> {
    match emit_folds(vals, ty, op) {
        Some(_) => vals,
        None => vals.push(ValueDef { id: ValueId(vals.len() as u32), ty, op, name: None }),
    }
}

/// What `emit(ty, op)` answers.
pub open spec fn emit_result(vals: Seq<ValueDef>, ty: Ty, op: Op) -> ValueId {
    match emit_folds(vals, ty, op) {
        Some(v) => v,
        None => ValueId(vals.len() as u32),
    }
}

/// `new` keeps every value of `old`, up to names.
pub open spec fn grows(old: Seq<ValueDef>, new: Seq<ValueDef>) -> bool {
    &&& new.len() >= old.len()
    &&& forall|i: int|
        #![trigger new[i]]
        0 <= i < old.len() ==> new[i].id == old[i].id && new[i].ty == old[i].ty && new[i].op
            == old[i].op
}

/// None of the values from `from` on reads a register.
pub open spec fn no_reg_reads(vals: Seq<ValueDef>, from: nat) -> bool {
    forall|i: int| #![trigger vals[i]] from <= i < vals.len() ==> !(vals[i].op is RegRead)
}

/// The key of one field of one write port in the environment.
pub open spec fn port_key(name: Seq<char>, slot: nat, field: Seq<char>) -> Seq<char> {
    name + "#"@ + dec(slot) + "#"@ + field
}

pub struct Lowerer {
    /// Names currently being inlined.
    pub call_stack: Vec<String>,
    /// Every `fun` this body called, at any depth.
    pub calls: Vec<String>,
    /// Pipe parameters in declaration order.
    pub pipes: Vec<PipeInfo>,
    /// Memories in declaration order. Reads name one by index.
    pub mems: Vec<Memory>,
    /// How many write ports each memory has taken on the path being lowered.
    pub mem_slots: Vec<usize>,
    /// Immediate assertions, in source order.
    pub asserts: Vec<Assertion>,
    /// Constant parameters, in declaration order.
    pub params: Vec<(String, Ty, u128)>,
    /// `!done` for a process that stops, so its memories stop being written
    /// when it does.
    pub stop_writes: Option<ValueId>,
    /// Set while lowering a `sequence`.
    pub in_pipeline: bool,
    /// The conditions under which the statements being lowered right now
    /// run, outermost first.
    pub path: Vec<PathTerm>,
    /// Where the statement being lowered right now is, innermost last.
    pub anchors: Vec<Span>,
    /// For each pipe a nonblocking operation has claimed, the paths it was
    /// claimed on.
    pub transfer_paths: Vec<(String, Vec<Vec<PathTerm>>)>,
    pub values: Vec<ValueDef>,
    pub ports: Vec<Port>,
}

impl Lowerer {
    pub open spec fn vals(&self) -> Seq<ValueDef> {
        self.values@
    }

    pub open spec fn ports_view(&self) -> Seq<Port> {
        self.ports@
    }

    pub open spec fn slots(&self) -> Seq<usize> {
        self.mem_slots@
    }

    pub open spec fn path_view(&self) -> Seq<PathTerm> {
        self.path@
    }

    pub open spec fn anchors_view(&self) -> Seq<Span> {
        self.anchors@
    }

    /// Room for `k` more values.
    pub open spec fn room(&self, k: nat) -> bool {
        self.vals().len() + k < u32::MAX
    }

    /// Everything the builder holds refers to values and ports that exist.
    pub open spec fn inv(&self) -> bool {
        let n = self.vals().len();
        &&& n < u32::MAX
        &&& self.ports_view().len() < u32::MAX
        &&& self.mems@.len() < u32::MAX
        &&& values_ok(self.vals(), self.ports_view().len(), self.mems@.len())
        &&& self.slots().len() == self.mems@.len()
        &&& forall|j: int|
            0 <= j < self.mems@.len() ==> mem_ok(#[trigger] self.mems@[j], n) && width(
                self.mems@[j].elem,
            ) <= u32::MAX
        &&& forall|j: int|
            0 <= j < self.pipes@.len() ==> pipe_ok(#[trigger] self.pipes@[j], n, self.ports_view().len())
        &&& forall|j: int| 0 <= j < self.path_view().len() ==> term_ok(#[trigger] self.path_view()[j], n)
        &&& forall|j: int| 0 <= j < self.asserts@.len() ==> vid_ok((#[trigger] self.asserts@[j]).cond, n)
        &&& opt_ok(self.stop_writes, n)
    }

    /// Everything but the values is as it was in `old`.
    pub open spec fn same_frame(&self, old: &Lowerer) -> bool {
        &&& self.ports_view() == old.ports_view()
        &&& self.pipes == old.pipes
        &&& self.mems == old.mems
        &&& self.slots() == old.slots()
        &&& self.asserts == old.asserts
        &&& self.params == old.params
        &&& self.stop_writes == old.stop_writes
        &&& self.in_pipeline == old.in_pipeline
        &&& self.path_view() == old.path_view()
        &&& self.anchors_view() == old.anchors_view()
        &&& self.calls == old.calls
        &&& self.call_stack == old.call_stack
        &&& self.transfer_paths == old.transfer_paths
    }

    /// Only values were added (and names given), none of them a register
    /// read, and at most `k` of them.
    pub open spec fn adds(&self, old: &Lowerer, k: nat) -> bool {
        &&& self.same_frame(old)
        &&& grows(old.vals(), self.vals())
        &&& no_reg_reads(self.vals(), old.vals().len())
        &&& self.vals().len() <= old.vals().len() + k
    }

    pub fn new() -> (low: Lowerer)
        ensures
            low.inv(),
            low.vals().len() == 0,
            low.ports_view().len() == 0,
            low.pipes@.len() == 0,
            low.mems@.len() == 0,
            low.asserts@.len() == 0,
            low.params@.len() == 0,
            low.path_view().len() == 0,
            low.anchors_view().len() == 0,
            low.calls@.len() == 0,
            low.call_stack@.len() == 0,
            low.stop_writes is None,
            !low.in_pipeline,
    {
        Lowerer {
            call_stack: Vec::new(),
            calls: Vec::new(),
            pipes: Vec::new(),
            mems: Vec::new(),
            mem_slots: Vec::new(),
            asserts: Vec::new(),
            params: Vec::new(),
            stop_writes: None,
            in_pipeline: false,
            path: Vec::new(),
            anchors: Vec::new(),
            transfer_paths: Vec::new(),
            values: Vec::new(),
            ports: Vec::new(),
        }
    }

    fn is_const(&self, v: ValueId, k: u128) -> (r: bool)
        requires
            (v.0 as nat) < self.vals().len(),
        ensures
            r == is_const_at(self.vals(), v, k),
    {
        match &self.values[v.0 as usize].op {
            Op::Const(c) => *c == k,
            _ => false,
        }
    }

    /// Adds a value, or answers one that already computes it.
    ///
    /// `c ? 1'b1 : 1'b0` is `c`, and `x & 1'b1` and `x | 1'b0` are `x`. An
    /// SSA join produces the first for a flag set on one branch, and the
    /// generated handshake produces the others.
    pub fn emit(&mut self, ty: Ty, op: Op) -> (r: ValueId)
        requires
            old(self).inv(),
            old(self).room(1),
            op_ok(op, old(self).vals().len(), old(self).ports_view().len(), old(self).mems@.len()),
        ensures
            final(self).inv(),
            final(self).same_frame(old(self)),
            final(self).vals() == emitted(old(self).vals(), ty, op),
            r == emit_result(old(self).vals(), ty, op),
            vid_ok(r, final(self).vals().len()),
    {
        let ghost vals0 = self.values@;
        if let Op::Bin { op: bin, lhs, rhs } = &op {
            let (bin, lhs, rhs) = (*bin, *lhs, *rhs);
            let one_bit = ty.is_bool();
            if bin == BinOp::And {
                if one_bit && self.is_const(rhs, 1) {
                    return lhs;
                }
                if one_bit && self.is_const(lhs, 1) {
                    return rhs;
                }
            } else if bin == BinOp::Or {
                if one_bit && self.is_const(rhs, 0) {
                    return lhs;
                }
                if one_bit && self.is_const(lhs, 0) {
                    return rhs;
                }
            }
        }
        if let Op::Mux { cond, then_val, else_val } = &op {
            let (cond, then_val, else_val) = (*cond, *then_val, *else_val);
            let picks_the_condition = ty.is_bool() && self.is_const(then_val, 1) && self.is_const(
                else_val,
                0,
            ) && self.values[cond.0 as usize].ty.is_bool();
            if picks_the_condition {
                return cond;
            }
        }
        let id = ValueId(self.values.len() as u32);
        self.values.push(ValueDef { id, ty, op, name: None });
        proof {
            let n = vals0.len();
            assert forall|i: int| 0 <= i < self.values@.len() implies #[trigger] self.values@[i].id.0
                == i && op_ok(self.values@[i].op, i as nat, self.ports@.len(), self.mems@.len()) by {
                if i < n {
                    assert(self.values@[i] == vals0[i]);
                }
            }
            lemma_inv_grows(old(self), self);
        }
        id
    }

    /// The type of a value.
    pub fn ty_of(&self, id: ValueId) -> (t: Ty)
        requires
            (id.0 as nat) < self.vals().len(),
        ensures
            t == self.vals()[id.0 as int].ty,
    {
        self.values[id.0 as usize].ty.clone()
    }

    /// The literal a value is, if it is one.
    pub fn const_of(&self, v: ValueId) -> (r: Option<u128>)
        requires
            (v.0 as nat) < self.vals().len(),
        ensures
            r == (match self.vals()[v.0 as int].op {
                Op::Const(k) => Some(k),
                _ => None,
            }),
    {
        match self.values[v.0 as usize].op {
            Op::Const(k) => Some(k),
            _ => None,
        }
    }

    /// An equality test between two already-matching operands.
    pub fn emit_eq(&mut self, lhs: ValueId, rhs: ValueId) -> (r: ValueId)
        requires
            old(self).inv(),
            old(self).room(1),
            vid_ok(lhs, old(self).vals().len()),
            vid_ok(rhs, old(self).vals().len()),
        ensures
            final(self).inv(),
            final(self).same_frame(old(self)),
            final(self).vals() == old(self).vals().push(
                ValueDef { id: r, ty: bool_ty(), op: Op::Cmp { op: CmpOp::Eq, lhs, rhs }, name: None },
            ),
            r.0 == old(self).vals().len(),
    {
        self.emit(bool_type(), Op::Cmp { op: CmpOp::Eq, lhs, rhs })
    }

    /// Names a value, whatever it was called before.
    pub fn name_value(&mut self, v: ValueId, name: String)
        requires
            (v.0 as nat) < old(self).vals().len(),
        ensures
            grows(old(self).vals(), final(self).vals()),
            final(self).vals().len() == old(self).vals().len(),
            final(self).same_frame(old(self)),
            final(self).vals() == old(self).vals().update(
                v.0 as int,
                ValueDef { name: Some(name), ..old(self).vals()[v.0 as int] },
            ),
    {
        let i = v.0 as usize;
        self.values[i].name = Some(name);
    }

    /// Names a value unless it is already a signal in its own right.
    ///
    /// A port or a register read has a name the backend depends on, and a
    /// constant is folded rather than declared -- renaming any of them would
    /// produce a reference to a wire that is never emitted.
    pub fn name_value_safe(&mut self, v: ValueId, name: String)
        requires
            (v.0 as nat) < old(self).vals().len(),
        ensures
            grows(old(self).vals(), final(self).vals()),
            final(self).vals().len() == old(self).vals().len(),
            final(self).same_frame(old(self)),
            final(self).vals() == if is_signal(old(self).vals()[v.0 as int].op) {
                old(self).vals()
            } else {
                old(self).vals().update(
                    v.0 as int,
                    ValueDef { name: Some(name), ..old(self).vals()[v.0 as int] },
                )
            },
    {
        let is_already_a_signal = match &self.values[v.0 as usize].op {
            Op::Port(_) => true,
            Op::RegRead(_) => true,
            Op::Const(_) => true,
            _ => false,
        };
        if is_already_a_signal {
            return;
        }
        self.name_value(v, name);
    }

    /// Names a value only if it does not already have one.
    pub fn name_value_fresh(&mut self, v: ValueId, name: String)
        requires
            (v.0 as nat) < old(self).vals().len(),
        ensures
            grows(old(self).vals(), final(self).vals()),
            final(self).vals().len() == old(self).vals().len(),
            final(self).same_frame(old(self)),
            final(self).vals() == if old(self).vals()[v.0 as int].name is Some || is_signal(
                old(self).vals()[v.0 as int].op,
            ) {
                old(self).vals()
            } else {
                old(self).vals().update(
                    v.0 as int,
                    ValueDef { name: Some(name), ..old(self).vals()[v.0 as int] },
                )
            },
    {
        if self.values[v.0 as usize].name.is_none() {
            self.name_value_safe(v, name);
        }
    }

    /// A new port, with nothing attached to it.
    pub fn add_port(&mut self, name: String, dir: PortDir, ty: Ty) -> (id: PortId)
        requires
            old(self).inv(),
            old(self).ports_view().len() + 1 < u32::MAX,
        ensures
            final(self).inv(),
            id.0 == old(self).ports_view().len(),
            final(self).ports_view() == old(self).ports_view().push(Port { name, dir, ty }),
            final(self).vals() == old(self).vals(),
            final(self).pipes == old(self).pipes,
            final(self).mems == old(self).mems,
            final(self).slots() == old(self).slots(),
            final(self).path_view() == old(self).path_view(),
            final(self).asserts == old(self).asserts,
            final(self).params == old(self).params,
    {
        let id = PortId(self.ports.len() as u32);
        self.ports.push(Port { name, dir, ty });
        proof {
            lemma_values_ok_more_ports(self.values@, old(self).ports@.len(), self.ports@.len(), self.mems@.len());
            assert forall|j: int| 0 <= j < self.pipes@.len() implies pipe_ok(#[trigger] self.pipes@[j], self.values@.len(), self.ports@.len()) by {
                assert(pipe_ok(old(self).pipes@[j], self.values@.len(), old(self).ports@.len()));
            }
            assert forall|j: int| 0 <= j < self.mems@.len() implies mem_ok(#[trigger] self.mems@[j], self.values@.len())
                && width(self.mems@[j].elem) <= u32::MAX by {
                assert(mem_ok(old(self).mems@[j], self.values@.len()));
            }
            assert forall|j: int| 0 <= j < self.path@.len() implies term_ok(#[trigger] self.path_view()[j], self.values@.len()) by {
                assert(term_ok(old(self).path_view()[j], self.values@.len()));
            }
            assert forall|j: int| 0 <= j < self.asserts@.len() implies vid_ok((#[trigger] self.asserts@[j]).cond, self.values@.len()) by {
                assert(vid_ok(old(self).asserts@[j].cond, self.values@.len()));
            }
        }
        id
    }

    /// One port of the declared width, for the modules the compiler writes at
    /// a boundary: an adapter's FIFO face is a handshake in plain signals.
    pub fn declare_raw_port(&mut self, name: String, dir: PortDir, ty: Ty) -> (id: PortId)
        requires
            old(self).inv(),
            old(self).ports_view().len() + 1 < u32::MAX,
        ensures
            final(self).inv(),
            id.0 == old(self).ports_view().len(),
            final(self).ports_view() == old(self).ports_view().push(Port { name, dir, ty }),
            final(self).vals() == old(self).vals(),
            final(self).pipes == old(self).pipes,
            final(self).mems == old(self).mems,
            final(self).slots() == old(self).slots(),
            final(self).path_view() == old(self).path_view(),
            final(self).asserts == old(self).asserts,
    {
        self.add_port(name, dir, ty)
    }

    /// `clk` and `rst_n`, which every clocked module has and none declares.
    pub fn declare_clock(&mut self, env: &mut Env)
        requires
            old(self).inv(),
            old(self).room(2),
            old(self).ports_view().len() + 2 < u32::MAX,
        ensures
            final(self).inv(),
            final(self).pipes == old(self).pipes,
            final(self).mems == old(self).mems,
            final(self).slots() == old(self).slots(),
            final(self).path_view() == old(self).path_view(),
            final(self).asserts == old(self).asserts,
            final(self).params == old(self).params,
            final(self).ports_view().len() == old(self).ports_view().len() + 2,
            final(self).ports_view().subrange(0, old(self).ports_view().len() as int) == old(self).ports_view(),
            final(self).ports_view()[old(self).ports_view().len() as int].name@ == "clk"@,
            final(self).ports_view()[old(self).ports_view().len() + 1 as int].name@ == "rst_n"@,
            forall|j: int| old(self).ports_view().len() <= j < final(self).ports_view().len() ==>
                (#[trigger] final(self).ports_view()[j]).dir == PortDir::In && final(self).ports_view()[j].ty == bool_ty(),
            appended(old(self).vals(), final(self).vals(), 2),
            def_is(final(self).vals()[old(self).vals().len() as int], old(self).vals().len(), bool_ty(),
                Op::Port(PortId(old(self).ports_view().len() as u32))),
            def_is(final(self).vals()[old(self).vals().len() + 1 as int], old(self).vals().len() + 1, bool_ty(),
                Op::Port(PortId((old(self).ports_view().len() + 1) as u32))),
            named(final(self).vals()[old(self).vals().len() as int], "clk"@),
            named(final(self).vals()[old(self).vals().len() + 1 as int], "rst_n"@),
            final(env).lookup("clk"@) == Some(Binding::constant_spec(ValueId(old(self).vals().len() as u32), bool_ty())),
            final(env).lookup("rst_n"@) == Some(Binding::constant_spec(ValueId((old(self).vals().len() + 1) as u32), bool_ty())),
            forall|k: Seq<char>| k != "clk"@ && k != "rst_n"@ ==> final(env).lookup(k) == old(env).lookup(k),
    {
        proof { reveal_strlit("clk"); reveal_strlit("rst_n"); }
        let ghost v0 = self.values@;
        let ghost p0 = self.ports@;
        let clk = String::from_str("clk");
        let port_id = self.add_port(clk, PortDir::In, bool_type());
        let v = self.emit(bool_type(), Op::Port(port_id));
        self.name_value(v, String::from_str("clk"));
        env.insert(String::from_str("clk"), Binding::constant(v, bool_type()));
        proof { reveal_strlit("clk"); reveal_strlit("rst_n"); assert("clk"@.len() != "rst_n"@.len()); }
        let ghost v1 = self.values@;
        let rst = String::from_str("rst_n");
        let port_id2 = self.add_port(rst, PortDir::In, bool_type());
        let v2 = self.emit(bool_type(), Op::Port(port_id2));
        self.name_value(v2, String::from_str("rst_n"));
        env.insert(String::from_str("rst_n"), Binding::constant(v2, bool_type()));
        proof {
            assert(self.values@.subrange(0, v0.len() as int) =~= v0);
            assert(self.ports@.subrange(0, p0.len() as int) =~= p0);
            assert(self.values@[v0.len() as int] == v1[v0.len() as int]);
        }
    }

    /// One pipe: three flat ports, and the bookkeeping that goes with them.
    ///
    /// `<name>_wsalt` and `<name>_rsalt` carry the two salts and
    /// `<name>_data` both entries. An input also reads its data port once,
    /// as `<name>_data`, so every later read of an entry slices that value.
    pub fn declare_pipe(&mut self, name: String, ty: Ty, is_input: bool) -> (ix: usize)
        requires
            old(self).inv(),
            old(self).room(1),
            old(self).ports_view().len() + 3 < u32::MAX,
            2 * width(ty) <= u32::MAX,
        ensures
            final(self).inv(),
            ix == old(self).pipes@.len(),
            final(self).mems == old(self).mems,
            final(self).params == old(self).params,
            final(self).slots() == old(self).slots(),
            final(self).path_view() == old(self).path_view(),
            final(self).asserts == old(self).asserts,
            final(self).pipes@.len() == old(self).pipes@.len() + 1,
            final(self).pipes@.subrange(0, ix as int) == old(self).pipes@,
            pipe_declared(final(self).pipes@[ix as int], name@, ty, is_input,
                old(self).ports_view().len(), old(self).vals().len()),
            final(self).ports_view().len() == old(self).ports_view().len() + 3,
            final(self).ports_view().subrange(0, old(self).ports_view().len() as int) == old(self).ports_view(),
            pipe_ports(final(self).ports_view(), old(self).ports_view().len(), name@, ty, is_input),
            if is_input {
                appended(old(self).vals(), final(self).vals(), 1)
                && def_is(final(self).vals()[old(self).vals().len() as int], old(self).vals().len(),
                    Ty::Array(Box::new(ty), 2), Op::Port(PortId((old(self).ports_view().len() + 2) as u32)))
                && named(final(self).vals()[old(self).vals().len() as int], name@ + "_data"@)
            } else {
                final(self).vals() == old(self).vals()
            },
    {
        let ghost v0 = self.values@;
        let ghost p0 = self.ports@;
        let (vd, rd, dd) = if is_input {
            (PortDir::In, PortDir::Out, PortDir::In)
        } else {
            (PortDir::Out, PortDir::In, PortDir::Out)
        };
        let wsalt_port = self.add_port(suffixed(&name, "_wsalt"), vd, salt());
        let rsalt_port = self.add_port(suffixed(&name, "_rsalt"), rd, salt());
        let pair = Ty::Array(Box::new(ty.clone()), 2);
        let data_port = self.add_port(suffixed(&name, "_data"), dd, pair.clone());
        let data_value = if is_input {
            let v = self.emit(pair, Op::Port(data_port));
            self.name_value(v, suffixed(&name, "_data"));
            Some(v)
        } else {
            None
        };
        let ghost vals1 = self.values@;
        self.pipes.push(PipeInfo {
            name,
            ty,
            is_input,
            wsalt_port,
            rsalt_port,
            data_port,
            data_value,
            item: None,
            salt_reg: None,
            idx: None,
            movable: None,
            used: false,
            sent: None,
            send_guard: None,
            fired: None,
            slot_reg: None,
        });
        proof {
            assert(self.values@.subrange(0, v0.len() as int) =~= v0);
            assert(self.ports@.subrange(0, p0.len() as int) =~= p0);
            assert(self.pipes@.subrange(0, old(self).pipes@.len() as int) =~= old(self).pipes@);
            assert forall|j: int| 0 <= j < self.pipes@.len() implies pipe_ok(#[trigger] self.pipes@[j], self.values@.len(), self.ports@.len()) by {
                if j < old(self).pipes@.len() {
                    assert(self.pipes@[j] == old(self).pipes@[j]);
                }
            }
        }
        self.pipes.len() - 1
    }

    // ---- the salt protocol -------------------------------------------------
    //
    // Written once, here, and never inline. `pipe_full` and `pipe_empty` read
    // their own port rather than taking a salt argument, because passing the
    // wrong side's salt is the one mistake that compiles, synthesizes, and
    // deadlocks only under back-pressure.

    /// The salt the OTHER side publishes: `wsalt` at a consumer, `rsalt` at a
    /// producer.
    pub fn salt_from_other(&mut self, ix: usize) -> (v: ValueId)
        requires
            old(self).inv(),
            old(self).room(1),
            ix < old(self).pipes@.len(),
        ensures
            final(self).inv(),
            final(self).same_frame(old(self)),
            appended(old(self).vals(), final(self).vals(), 1),
            v.0 == old(self).vals().len(),
            def_is(final(self).vals()[v.0 as int], v.0 as nat, salt_ty(), Op::Port(other_salt_port(old(self).pipes@[ix as int]))),
    {
        let port = if self.pipes[ix].is_input { self.pipes[ix].wsalt_port } else { self.pipes[ix].rsalt_port };
        let v = self.emit(salt(), Op::Port(port));
        proof { assert(self.values@.subrange(0, old(self).values@.len() as int) =~= old(self).values@); }
        v
    }

    /// Which entry a salt points at: `salt[0] ^ salt[1]`.
    ///
    /// The gray sequence is 00, 01, 11, 10, so the parity of the two bits is
    /// the low bit of the binary position -- which for two entries is the
    /// index.
    pub fn salt_idx(&mut self, salt_v: ValueId, name: String) -> (v: ValueId)
        requires
            old(self).inv(),
            old(self).room(3),
            vid_ok(salt_v, old(self).vals().len()),
        ensures
            final(self).inv(),
            final(self).same_frame(old(self)),
            appended(old(self).vals(), final(self).vals(), 3),
            v.0 == old(self).vals().len() + 2,
            salt_idx_at(final(self).vals(), old(self).vals().len(), salt_v),
            named(final(self).vals()[v.0 as int], name@),
    {
        let b0 = self.emit(bool_type(), Op::Slice { arg: salt_v, hi: 0, lo: 0 });
        let b1 = self.emit(bool_type(), Op::Slice { arg: salt_v, hi: 1, lo: 1 });
        let v = self.emit(bool_type(), Op::Bin { op: BinOp::Xor, lhs: b0, rhs: b1 });
        self.name_value_safe(v, name);
        proof { assert(self.values@.subrange(0, old(self).values@.len() as int) =~= old(self).values@); }
        v
    }

    /// Nothing to take: the two salts agree.
    pub fn pipe_empty(&mut self, ix: usize, rsalt_q: ValueId) -> (v: ValueId)
        requires
            old(self).inv(),
            old(self).room(2),
            ix < old(self).pipes@.len(),
            vid_ok(rsalt_q, old(self).vals().len()),
        ensures
            final(self).inv(),
            final(self).same_frame(old(self)),
            appended(old(self).vals(), final(self).vals(), 2),
            v.0 == old(self).vals().len() + 1,
            def_is(final(self).vals()[old(self).vals().len() as int], old(self).vals().len(), salt_ty(),
                Op::Port(other_salt_port(old(self).pipes@[ix as int]))),
            def_is(final(self).vals()[v.0 as int], v.0 as nat, bool_ty(),
                Op::Cmp { op: CmpOp::Eq, lhs: ValueId(old(self).vals().len() as u32), rhs: rsalt_q }),
            named(final(self).vals()[v.0 as int], old(self).pipes@[ix as int].name@ + "_empty"@),
    {
        let wsalt = self.salt_from_other(ix);
        let v = self.emit_eq(wsalt, rsalt_q);
        let name = suffixed(&self.pipes[ix].name, "_empty");
        self.name_value_safe(v, name);
        proof { assert(self.values@.subrange(0, old(self).values@.len() as int) =~= old(self).values@); }
        v
    }

    /// Nowhere to put one: the salts differ in BOTH bits, which in gray code
    /// is one lap ahead -- two entries, for a buffer that holds two.
    pub fn pipe_full(&mut self, ix: usize, wsalt_q: ValueId) -> (v: ValueId)
        requires
            old(self).inv(),
            old(self).room(3),
            ix < old(self).pipes@.len(),
            vid_ok(wsalt_q, old(self).vals().len()),
        ensures
            final(self).inv(),
            final(self).same_frame(old(self)),
            appended(old(self).vals(), final(self).vals(), 3),
            v.0 == old(self).vals().len() + 2,
            def_is(final(self).vals()[old(self).vals().len() as int], old(self).vals().len(), salt_ty(),
                Op::Port(other_salt_port(old(self).pipes@[ix as int]))),
            def_is(final(self).vals()[old(self).vals().len() + 1 as int], old(self).vals().len() + 1, salt_ty(),
                Op::Un { op: UnOp::BitNot, arg: ValueId(old(self).vals().len() as u32) }),
            def_is(final(self).vals()[v.0 as int], v.0 as nat, bool_ty(),
                Op::Cmp { op: CmpOp::Eq, lhs: wsalt_q, rhs: ValueId((old(self).vals().len() + 1) as u32) }),
            named(final(self).vals()[v.0 as int], old(self).pipes@[ix as int].name@ + "_full"@),
    {
        let rsalt = self.salt_from_other(ix);
        // BitNot, not LogNot: a one-bit answer here would widen in the compare
        // and `full` would be false almost always.
        let flipped = self.emit(salt(), Op::Un { op: UnOp::BitNot, arg: rsalt });
        let v = self.emit_eq(wsalt_q, flipped);
        let name = suffixed(&self.pipes[ix].name, "_full");
        self.name_value_safe(v, name);
        proof { assert(self.values@.subrange(0, old(self).values@.len() as int) =~= old(self).values@); }
        v
    }

    /// The salt after a transfer: toggle the bit the index names, or hold.
    pub fn salt_next(&mut self, salt_q: ValueId, idx: ValueId, enable: ValueId) -> (v: ValueId)
        requires
            old(self).inv(),
            old(self).room(5),
            vid_ok(salt_q, old(self).vals().len()),
            vid_ok(idx, old(self).vals().len()),
            vid_ok(enable, old(self).vals().len()),
        ensures
            final(self).inv(),
            final(self).same_frame(old(self)),
            appended(old(self).vals(), final(self).vals(), 5),
            v.0 == old(self).vals().len() + 4,
            salt_next_at(final(self).vals(), old(self).vals().len(), salt_q, idx, enable),
    {
        let one = self.emit(salt(), Op::Const(1));
        let two = self.emit(salt(), Op::Const(2));
        let bit = self.emit(salt(), Op::Mux { cond: idx, then_val: two, else_val: one });
        let toggled = self.emit(salt(), Op::Bin { op: BinOp::Xor, lhs: salt_q, rhs: bit });
        let v = self.emit(salt(), Op::Mux { cond: enable, then_val: toggled, else_val: salt_q });
        proof { assert(self.values@.subrange(0, old(self).values@.len() as int) =~= old(self).values@); }
        v
    }

    /// One entry out of the pair on the wire.
    ///
    /// A `Mux` over two constant-bounds slices rather than a `DynSlice`: the
    /// latter scales the index to a bit offset, and for a payload whose width
    /// is not a power of two that is a multiplier in front of a 2-way select.
    pub fn entry_of(&mut self, pair: ValueId, idx: ValueId, ty: &Ty) -> (v: ValueId)
        requires
            old(self).inv(),
            old(self).room(3),
            vid_ok(pair, old(self).vals().len()),
            vid_ok(idx, old(self).vals().len()),
            1 <= width(*ty),
            2 * width(*ty) <= u32::MAX,
        ensures
            final(self).inv(),
            final(self).same_frame(old(self)),
            appended(old(self).vals(), final(self).vals(), 3),
            v.0 == old(self).vals().len() + 2,
            entry_at(final(self).vals(), old(self).vals().len(), pair, idx, *ty),
    {
        let w = ty.bit_width();
        let e0 = self.emit(ty.clone(), Op::Slice { arg: pair, hi: w - 1, lo: 0 });
        let e1 = self.emit(ty.clone(), Op::Slice { arg: pair, hi: 2 * w - 1, lo: w });
        let v = self.emit(ty.clone(), Op::Mux { cond: idx, then_val: e1, else_val: e0 });
        proof { assert(self.values@.subrange(0, old(self).values@.len() as int) =~= old(self).values@); }
        v
    }

    /// The entry this side is owed, given its own `rsalt` register.
    pub fn pipe_item_at(&mut self, ix: usize, rsalt_q: ValueId) -> (item: ValueId)
        requires
            old(self).inv(),
            old(self).room(6),
            ix < old(self).pipes@.len(),
            old(self).pipes@[ix as int].data_value is Some,
            1 <= width(old(self).pipes@[ix as int].ty),
            vid_ok(rsalt_q, old(self).vals().len()),
        ensures
            final(self).inv(),
            final(self).ports_view() == old(self).ports_view(),
            final(self).mems == old(self).mems,
            final(self).slots() == old(self).slots(),
            final(self).path_view() == old(self).path_view(),
            final(self).asserts == old(self).asserts,
            final(self).stop_writes == old(self).stop_writes,
            final(self).pipes@.len() == old(self).pipes@.len(),
            forall|j: int| 0 <= j < final(self).pipes@.len() && j != ix ==> final(self).pipes@[j] == old(self).pipes@[j],
            final(self).pipes@[ix as int] == (PipeInfo {
                idx: Some(ValueId((old(self).vals().len() + 2) as u32)),
                ..old(self).pipes@[ix as int]
            }),
            appended(old(self).vals(), final(self).vals(), 6),
            item.0 == old(self).vals().len() + 5,
            salt_idx_at(final(self).vals(), old(self).vals().len(), rsalt_q),
            named(final(self).vals()[old(self).vals().len() + 2 as int], old(self).pipes@[ix as int].name@ + "_ridx"@),
            entry_at(final(self).vals(), old(self).vals().len() + 3, old(self).pipes@[ix as int].data_value->0,
                ValueId((old(self).vals().len() + 2) as u32), old(self).pipes@[ix as int].ty),
            named(final(self).vals()[item.0 as int], old(self).pipes@[ix as int].name@ + "_item"@),
    {
        let ty = self.pipes[ix].ty.clone();
        let pair = match self.pipes[ix].data_value {
            Some(v) => v,
            None => { proof { assert(false); } ValueId(0) },
        };
        let ridx_name = suffixed(&self.pipes[ix].name, "_ridx");
        let ridx = self.salt_idx(rsalt_q, ridx_name);
        let item = self.entry_of(pair, ridx, &ty);
        let item_name = suffixed(&self.pipes[ix].name, "_item");
        self.name_value_safe(item, item_name);
        let ghost mid = self.values@;
        self.pipes[ix].idx = Some(ridx);
        proof {
            assert(self.values@.subrange(0, old(self).values@.len() as int) =~= old(self).values@);
            assert forall|j: int| 0 <= j < self.pipes@.len() implies pipe_ok(#[trigger] self.pipes@[j], self.values@.len(), self.ports@.len()) by {
                assert(pipe_ok(old(self).pipes@[j], old(self).values@.len(), self.ports@.len()));
            }
            lemma_inv_grows_pipes(old(self), self);
        }
        item
    }

    /// Both entries as one value, entry 0 in the low half.
    pub fn pack_entries(&mut self, e0: ValueId, e1: ValueId, ty: &Ty) -> (v: ValueId)
        requires
            old(self).inv(),
            old(self).room(1),
            vid_ok(e0, old(self).vals().len()),
            vid_ok(e1, old(self).vals().len()),
        ensures
            final(self).inv(),
            final(self).same_frame(old(self)),
            appended(old(self).vals(), final(self).vals(), 1),
            v.0 == old(self).vals().len(),
            final(self).vals()[v.0 as int].ty == Ty::Array(Box::new(*ty), 2),
            final(self).vals()[v.0 as int].op matches Op::Concat(parts) && parts@ == seq![e1, e0],
    {
        let pair = Ty::Array(Box::new(ty.clone()), 2);
        let mut parts: Vec<ValueId> = Vec::new();
        parts.push(e1);
        parts.push(e0);
        proof { assert(parts@ =~= seq![e1, e0]); }
        let v = self.emit(pair, Op::Concat(parts));
        proof { assert(self.values@.subrange(0, old(self).values@.len() as int) =~= old(self).values@); }
        v
    }

    /// The value graph and the port list, for the module being assembled.
    pub fn take_values(self) -> (r: (Vec<ValueDef>, Vec<Port>))
        ensures
            r.0@ == self.vals(),
            r.1@ == self.ports_view(),
    {
        (self.values, self.ports)
    }
}

/// `name` followed by `suffix`.
pub fn suffixed(name: &String, suffix: &str) -> (r: String)
    ensures
        r@ == name@ + suffix@,
{
    let mut r = name.clone();
    r.append(suffix);
    r
}

/// `d` is value `i`, of type `ty`, computing `op`.
pub open spec fn def_is(d: ValueDef, i: nat, ty: Ty, op: Op) -> bool {
    d.id.0 == i && d.ty == ty && d.op == op
}

/// `d` carries the name `s`.
pub open spec fn named(d: ValueDef, s: Seq<char>) -> bool {
    d.name matches Some(n) && n@ == s
}

/// The last `k` values were appended to `old`, which is otherwise unchanged.
pub open spec fn appended(old: Seq<ValueDef>, new: Seq<ValueDef>, k: nat) -> bool {
    new.len() == old.len() + k && new.subrange(0, old.len() as int) == old
}

/// A freshly declared pipe: its ports start at `p0`, and an input's data
/// value is value `n0`.
pub open spec fn pipe_declared(p: PipeInfo, name: Seq<char>, ty: Ty, is_input: bool, p0: nat, n0: nat) -> bool {
    &&& p.name@ == name
    &&& p.ty == ty
    &&& p.is_input == is_input
    &&& p.wsalt_port.0 == p0
    &&& p.rsalt_port.0 == p0 + 1
    &&& p.data_port.0 == p0 + 2
    &&& p.data_value == (if is_input { Some(ValueId(n0 as u32)) } else { None })
    &&& p.item is None && p.salt_reg is None && p.idx is None && p.movable is None
    &&& !p.used && p.sent is None && p.send_guard is None && p.fired is None && p.slot_reg is None
}

/// The three ports of a pipe, from `p0` on: the producer drives `wsalt` and
/// `data`, the consumer drives `rsalt`.
pub open spec fn pipe_ports(ports: Seq<Port>, p0: nat, name: Seq<char>, ty: Ty, is_input: bool) -> bool {
    let (vd, rd) = if is_input { (PortDir::In, PortDir::Out) } else { (PortDir::Out, PortDir::In) };
    &&& ports[p0 as int].name@ == name + "_wsalt"@
    &&& ports[p0 as int].dir == vd
    &&& ports[p0 as int].ty == salt_ty()
    &&& ports[p0 + 1 as int].name@ == name + "_rsalt"@
    &&& ports[p0 + 1 as int].dir == rd
    &&& ports[p0 + 1 as int].ty == salt_ty()
    &&& ports[p0 + 2 as int].name@ == name + "_data"@
    &&& ports[p0 + 2 as int].dir == vd
    &&& ports[p0 + 2 as int].ty == Ty::Array(Box::new(ty), 2)
}

/// The salt port the other side of pipe `p` drives.
pub open spec fn other_salt_port(p: PipeInfo) -> PortId {
    if p.is_input { p.wsalt_port } else { p.rsalt_port }
}

/// Values `at`..`at+2` compute `salt[0] ^ salt[1]`.
pub open spec fn salt_idx_at(vals: Seq<ValueDef>, at: nat, salt_v: ValueId) -> bool {
    &&& def_is(vals[at as int], at, bool_ty(), Op::Slice { arg: salt_v, hi: 0, lo: 0 })
    &&& def_is(vals[at + 1 as int], at + 1, bool_ty(), Op::Slice { arg: salt_v, hi: 1, lo: 1 })
    &&& def_is(vals[at + 2 as int], at + 2, bool_ty(),
        Op::Bin { op: BinOp::Xor, lhs: ValueId(at as u32), rhs: ValueId((at + 1) as u32) })
}

/// Values `at`..`at+4` compute `enable ? salt ^ (idx ? 2 : 1) : salt`.
pub open spec fn salt_next_at(vals: Seq<ValueDef>, at: nat, salt_q: ValueId, idx: ValueId, enable: ValueId) -> bool {
    &&& def_is(vals[at as int], at, salt_ty(), Op::Const(1))
    &&& def_is(vals[at + 1 as int], at + 1, salt_ty(), Op::Const(2))
    &&& def_is(vals[at + 2 as int], at + 2, salt_ty(),
        Op::Mux { cond: idx, then_val: ValueId((at + 1) as u32), else_val: ValueId(at as u32) })
    &&& def_is(vals[at + 3 as int], at + 3, salt_ty(),
        Op::Bin { op: BinOp::Xor, lhs: salt_q, rhs: ValueId((at + 2) as u32) })
    &&& def_is(vals[at + 4 as int], at + 4, salt_ty(),
        Op::Mux { cond: enable, then_val: ValueId((at + 3) as u32), else_val: salt_q })
}

/// Values `at`..`at+2` compute `idx ? pair[2w-1:w] : pair[w-1:0]`.
pub open spec fn entry_at(vals: Seq<ValueDef>, at: nat, pair: ValueId, idx: ValueId, ty: Ty) -> bool {
    let w = width(ty);
    &&& def_is(vals[at as int], at, ty, Op::Slice { arg: pair, hi: (w - 1) as u32, lo: 0 })
    &&& def_is(vals[at + 1 as int], at + 1, ty, Op::Slice { arg: pair, hi: (2 * w - 1) as u32, lo: w as u32 })
    &&& def_is(vals[at + 2 as int], at + 2, ty,
        Op::Mux { cond: idx, then_val: ValueId((at + 1) as u32), else_val: ValueId(at as u32) })
}

/// The invariant survives a change to one pipe that keeps it well formed.
pub proof fn lemma_inv_grows_pipes(old: &Lowerer, new: &Lowerer)
    requires
        old.inv(),
        new.ports_view() == old.ports_view(),
        new.mems == old.mems,
        new.slots() == old.slots(),
        new.path_view() == old.path_view(),
        new.asserts == old.asserts,
        new.stop_writes == old.stop_writes,
        new.vals().len() >= old.vals().len(),
        new.vals().len() < u32::MAX,
        values_ok(new.vals(), new.ports_view().len(), new.mems@.len()),
        forall|j: int| 0 <= j < new.pipes@.len() ==> pipe_ok(#[trigger] new.pipes@[j], new.vals().len(), new.ports_view().len()),
    ensures
        new.inv(),
{
    let n0 = old.vals().len();
    let n1 = new.vals().len();
    assert forall|j: int| 0 <= j < new.mems@.len() implies mem_ok(#[trigger] new.mems@[j], n1)
        && width(new.mems@[j].elem) <= u32::MAX by {
        assert(mem_ok(old.mems@[j], n0));
    }
    assert forall|j: int| 0 <= j < new.path_view().len() implies term_ok(#[trigger] new.path_view()[j], n1) by {
        assert(term_ok(old.path_view()[j], n0));
    }
    assert forall|j: int| 0 <= j < new.asserts@.len() implies vid_ok((#[trigger] new.asserts@[j]).cond, n1) by {
        assert(vid_ok(old.asserts@[j].cond, n0));
    }
}

/// An `emit` keeps every value it found and adds at most one, which reads a
/// register only when asked to.
pub proof fn lemma_emitted(vals: Seq<ValueDef>, ty: Ty, op: Op)
    ensures
        grows(vals, emitted(vals, ty, op)),
        emitted(vals, ty, op).len() <= vals.len() + 1,
        !(op is RegRead) ==> no_reg_reads(emitted(vals, ty, op), vals.len()),
        emit_folds(vals, ty, op) is None ==> appended(vals, emitted(vals, ty, op), 1),
{
    let new = emitted(vals, ty, op);
    if emit_folds(vals, ty, op) is None {
        assert forall|i: int| 0 <= i < vals.len() implies #[trigger] new[i] == vals[i] by {}
        assert(new.subrange(0, vals.len() as int) =~= vals);
    }
}

/// Appending twice is appending.
pub proof fn lemma_appended_trans(a: Seq<ValueDef>, b: Seq<ValueDef>, c: Seq<ValueDef>, k1: nat, k2: nat)
    requires
        appended(a, b, k1),
        appended(b, c, k2),
    ensures
        appended(a, c, k1 + k2),
        forall|i: int| 0 <= i < b.len() ==> c[i] == b[i],
{
    assert forall|i: int| 0 <= i < b.len() implies c[i] == b[i] by {
        assert(c.subrange(0, b.len() as int)[i] == c[i]);
    }
    assert(c.subrange(0, a.len() as int) =~= a) by {
        assert forall|i: int| 0 <= i < a.len() implies c.subrange(0, a.len() as int)[i] == a[i] by {
            assert(b.subrange(0, a.len() as int)[i] == b[i]);
        }
    }
}

/// Every register the values from `from` on read is in `lo..hi`.
pub open spec fn regs_read_in(vals: Seq<ValueDef>, from: nat, lo: nat, hi: nat) -> bool {
    forall|i: int|
        #![trigger vals[i]]
        from <= i < vals.len() ==> (vals[i].op matches Op::RegRead(r) ==> lo <= r && r < hi)
}

/// The invariant survives adding values.
pub proof fn lemma_inv_grows(old: &Lowerer, new: &Lowerer)
    requires
        old.inv(),
        new.same_frame(old),
        new.vals().len() >= old.vals().len(),
        new.vals().len() < u32::MAX,
        values_ok(new.vals(), new.ports_view().len(), new.mems@.len()),
    ensures
        new.inv(),
{
    let n0 = old.vals().len();
    let n1 = new.vals().len();
    assert forall|j: int| 0 <= j < new.mems@.len() implies mem_ok(#[trigger] new.mems@[j], n1)
        && width(new.mems@[j].elem) <= u32::MAX by {
        assert(mem_ok(old.mems@[j], n0));
    }
    assert forall|j: int| 0 <= j < new.pipes@.len() implies pipe_ok(#[trigger] new.pipes@[j], n1, new.ports_view().len()) by {
        assert(pipe_ok(old.pipes@[j], n0, old.ports_view().len()));
    }
    assert forall|j: int| 0 <= j < new.path_view().len() implies term_ok(#[trigger] new.path_view()[j], n1) by {
        assert(term_ok(old.path_view()[j], n0));
    }
    assert forall|j: int| 0 <= j < new.asserts@.len() implies vid_ok((#[trigger] new.asserts@[j]).cond, n1) by {
        assert(vid_ok(old.asserts@[j].cond, n0));
    }
}

/// Ports, register reads and constants are signals already and keep their
/// own names.
pub open spec fn is_signal(op: Op) -> bool {
    op is Port || op is RegRead || op is Const
}

proof fn lemma_values_ok_more_ports(vals: Seq<ValueDef>, p0: nat, p1: nat, m: nat)
    requires
        values_ok(vals, p0, m),
        p0 <= p1,
    ensures
        values_ok(vals, p1, m),
{
    assert forall|i: int| 0 <= i < vals.len() implies #[trigger] vals[i].id.0 == i && op_ok(
        vals[i].op,
        i as nat,
        p1,
        m,
    ) by {
        assert(op_ok(vals[i].op, i as nat, p0, m));
    }
}

/// Where a side's salt stands after `n` transfers: the two-bit gray
/// sequence 00, 01, 11, 10, round and round.
pub open spec fn gray(n: nat) -> u8 {
    if n % 4 == 0 {
        0
    } else if n % 4 == 1 {
        1
    } else if n % 4 == 2 {
        3
    } else {
        2
    }
}

/// The entry a salt points at, as `salt_idx` computes it: `salt[0] ^ salt[1]`.
pub open spec fn salt_index(s: u8) -> u8 {
    (s & 1) ^ ((s >> 1) & 1)
}

/// The salt after a transfer, as `salt_next` computes it when enabled:
/// the bit the index names toggled.
pub open spec fn salt_after(s: u8, idx: u8) -> u8 {
    s ^ (if idx != 0 { 2u8 } else { 1u8 })
}

/// The salt a producer compares with the consumer's for `full`, as
/// `pipe_full` computes it: both of the two bits flipped.
pub open spec fn salt_flipped(s: u8) -> u8 {
    !s & 3
}

proof fn lemma_gray_step(g: u8)
    requires
        g < 4,
    ensures
        g == 0 ==> salt_index(g) == 0 && salt_after(g, salt_index(g)) == 1,
        g == 1 ==> salt_index(g) == 1 && salt_after(g, salt_index(g)) == 3,
        g == 3 ==> salt_index(g) == 0 && salt_after(g, salt_index(g)) == 2,
        g == 2 ==> salt_index(g) == 1 && salt_after(g, salt_index(g)) == 0,
        salt_flipped(g) == 3 - g,
{
    assert(g < 4 ==> (g == 0 ==> (g & 1) ^ ((g >> 1) & 1) == 0 && g ^ 1u8 == 1)) by (bit_vector);
    assert(g < 4 ==> (g == 1 ==> (g & 1) ^ ((g >> 1) & 1) == 1 && g ^ 2u8 == 3)) by (bit_vector);
    assert(g < 4 ==> (g == 3 ==> (g & 1) ^ ((g >> 1) & 1) == 0 && g ^ 1u8 == 2)) by (bit_vector);
    assert(g < 4 ==> (g == 2 ==> (g & 1) ^ ((g >> 1) & 1) == 1 && g ^ 2u8 == 0)) by (bit_vector);
    assert(g < 4 ==> !g & 3 == 3 - g) by (bit_vector);
}

/// The salt protocol walks the gray sequence: after `n` transfers the index
/// a salt names is `n`'s parity -- which of the two entries is next -- and a
/// transfer at that index moves the salt to where `n + 1` transfers put it.
pub proof fn law_salt_walks_the_gray_sequence(n: nat)
    ensures
        salt_index(gray(n)) == n % 2,
        salt_after(gray(n), salt_index(gray(n))) == gray(n + 1),
{
    lemma_gray_step(gray(n));
}

/// What the two salts tell the two sides, while the producer is at most two
/// transfers -- the buffer's two entries -- ahead of the consumer: they agree
/// exactly when the buffer is empty, and differ in both bits exactly when it
/// is full.
pub proof fn law_salts_tell_empty_and_full(w: nat, r: nat)
    requires
        r <= w <= r + 2,
    ensures
        (gray(w) == gray(r)) <==> w == r,
        (gray(w) == salt_flipped(gray(r))) <==> w == r + 2,
{
    lemma_gray_step(gray(r));
}

} // verus!
