// The combinational intermediate representation.
//
// Every value carries a `Ty`, so widths are decided here once and the backend
// never has to guess.
//
// Values are in definition order, which is a valid topological order because
// nothing here can refer forwards: an operation names only values defined
// before it. `module_wf` states that, and every module the compiler builds
// satisfies it.

use vstd::prelude::*;
use crate::ty::{Ty, MemKind, width, bool_ty};

verus! {

#[derive(Debug, Clone, Copy, PartialEq, Eq, Structural)]
pub struct ValueId(pub u32);

#[derive(Debug, Clone, Copy, PartialEq, Eq, Structural)]
pub struct PortId(pub u32);

#[derive(Debug, Clone, Copy, PartialEq, Eq, Structural)]
pub enum PortDir {
    In,
    Out,
}

#[derive(Debug)]
pub struct Port {
    pub name: String,
    pub dir: PortDir,
    pub ty: Ty,
}

impl Clone for Port {
    fn clone(&self) -> (r: Self)
        ensures
            r == *self,
    {
        Port { name: self.name.clone(), dir: self.dir, ty: self.ty.clone() }
    }
}

#[derive(Debug, Clone, Copy, PartialEq, Eq, Structural)]
pub enum BinOp {
    Add,
    Sub,
    Mul,
    Div,
    Mod,
    Shl,
    /// Logical or arithmetic according to the left operand's signedness.
    Shr,
    And,
    Or,
    Xor,
}

#[derive(Debug, Clone, Copy, PartialEq, Eq, Structural)]
pub enum CmpOp {
    Eq,
    Ne,
    Lt,
    Gt,
    Le,
    Ge,
}

#[derive(Debug, Clone, Copy, PartialEq, Eq, Structural)]
pub enum UnOp {
    /// `~x`
    BitNot,
    /// `-x`, wrapping at the operand's width.
    Neg,
    /// `!x`, u1 in and out.
    LogNot,
}

#[derive(Debug)]
#[allow(inconsistent_fields)]
pub enum Op {
    /// Reads an input port.
    Port(PortId),
    /// The value a register holds at the start of the cycle. The index is
    /// into `Module::regs`.
    RegRead(u32),
    Const(u128),
    Bin { op: BinOp, lhs: ValueId, rhs: ValueId },
    /// Operands are already extended to a common type by the lowering.
    Cmp { op: CmpOp, lhs: ValueId, rhs: ValueId },
    Un { op: UnOp, arg: ValueId },
    /// Constant bit range, inclusive, `hi >= lo`.
    Slice { arg: ValueId, hi: u32, lo: u32 },
    /// `arg[base +: width]`.
    DynSlice { arg: ValueId, base: ValueId, width: u32 },
    /// High-to-low, matching Verilog's `{a, b, c}`.
    Concat(Vec<ValueId>),
    Repeat { arg: ValueId, times: u32 },
    ZExt { arg: ValueId, to: u32 },
    SExt { arg: ValueId, to: u32 },
    Trunc { arg: ValueId, to: u32 },
    /// Reinterprets the bits; width is unchanged.
    Cast { arg: ValueId },
    Mux { cond: ValueId, then_val: ValueId, else_val: ValueId },
    /// A `match`, kept whole rather than folded into a chain of `Mux`: the
    /// arms of a case are parallel, a ternary chain is a priority structure.
    /// Each arm carries every discriminant that selects it.
    Case { scrutinee: ValueId, arms: Vec<(Vec<u128>, ValueId)>, default: ValueId },
    /// An asynchronous read of `Module::mems[mem]`, seeing the memory as of
    /// the start of the cycle.
    MemRead { mem: u32, addr: ValueId },
    /// The output register of a memory's synchronous read port.
    MemReadReg { mem: u32, port: u32 },
}

#[derive(Debug)]
pub struct ValueDef {
    pub id: ValueId,
    pub ty: Ty,
    pub op: Op,
    /// Set when the value came from a named `let`, so the backend can emit a
    /// readable wire name instead of a numbered temporary.
    pub name: Option<String>,
}

/// A register: state that survives the clock edge.
#[derive(Debug)]
pub struct Reg {
    pub name: String,
    pub ty: Ty,
    pub reset: u128,
    pub next: ValueId,
}

/// An array with a backing store, and as many ports as the source asked for.
#[derive(Debug)]
pub struct Memory {
    pub name: String,
    pub elem: Ty,
    pub len: u32,
    pub kind: MemKind,
    /// Folded to a literal so the backend never emits `$clog2`.
    pub addr_width: u32,
    /// What every element takes on reset, or `None` for a memory that powers
    /// up undefined.
    pub reset: Option<u128>,
    /// The write ports, in source order: a later one overrides an earlier
    /// one at the same address.
    pub write: Vec<WritePort>,
    /// A port that never fires.
    pub idle: WritePort,
    /// The synchronous read ports.
    pub read: Vec<ReadPort>,
}

/// One write port: when, where, and what.
#[derive(Debug, Clone, Copy, PartialEq, Eq, Structural)]
pub struct WritePort {
    pub we: ValueId,
    pub addr: ValueId,
    pub data: ValueId,
}

/// A synchronous read: an address and an enable.
#[derive(Debug, Clone, Copy, PartialEq, Eq, Structural)]
pub struct ReadPort {
    pub addr: ValueId,
    pub en: ValueId,
}

/// An immediate assertion, checked in simulation.
#[derive(Debug)]
pub struct Assertion {
    pub cond: ValueId,
    pub message: String,
    pub is_fatal: bool,
}

#[derive(Debug)]
pub struct Module {
    pub name: String,
    pub ports: Vec<Port>,
    pub values: Vec<ValueDef>,
    /// Final driver of each output port.
    pub drivers: Vec<(PortId, ValueId)>,
    /// Empty for a combinational `fun`.
    pub regs: Vec<Reg>,
    pub mems: Vec<Memory>,
    pub asserts: Vec<Assertion>,
    /// Constant parameters, folded away before the backend runs.
    pub params: Vec<(String, Ty, u128)>,
    /// Wires between instances.
    pub nets: Vec<Net>,
    /// Submodules, in source order.
    pub instances: Vec<Instance>,
    /// Every `fun` this module's body called and inlined.
    pub calls: Vec<String>,
}

/// One wire in a `graph`.
#[derive(Debug)]
pub struct Net {
    pub name: String,
    pub ty: Ty,
}

/// One instantiated module.
#[derive(Debug)]
pub struct Instance {
    /// The module being instantiated.
    pub module: String,
    /// The instance's own name, unique within the graph.
    pub name: String,
    /// `(formal, actual)`, connected by name.
    pub conns: Vec<(String, String)>,
    /// The pipes this instance drives, by the graph's name for them.
    pub produces: Vec<String>,
}

// ---- well-formedness ---------------------------------------------------

/// Every value `op` names is below `below`, every port below `nports`, every
/// memory below `nmems`.
pub open spec fn op_ok(op: Op, below: nat, nports: nat, nmems: nat) -> bool {
    match op {
        Op::Port(p) => (p.0 as nat) < nports,
        Op::RegRead(_) => true,
        Op::Const(_) => true,
        Op::Bin { lhs, rhs, .. } => (lhs.0 as nat) < below && (rhs.0 as nat) < below,
        Op::Cmp { lhs, rhs, .. } => (lhs.0 as nat) < below && (rhs.0 as nat) < below,
        Op::Un { arg, .. } => (arg.0 as nat) < below,
        Op::Slice { arg, .. } => (arg.0 as nat) < below,
        Op::DynSlice { arg, base, .. } => (arg.0 as nat) < below && (base.0 as nat) < below,
        Op::Concat(parts) => forall|j: int| 0 <= j < parts@.len() ==> (parts@[j].0 as nat) < below,
        Op::Repeat { arg, .. } => (arg.0 as nat) < below,
        Op::ZExt { arg, .. } => (arg.0 as nat) < below,
        Op::SExt { arg, .. } => (arg.0 as nat) < below,
        Op::Trunc { arg, .. } => (arg.0 as nat) < below,
        Op::Cast { arg } => (arg.0 as nat) < below,
        Op::Mux { cond, then_val, else_val } => (cond.0 as nat) < below && (then_val.0 as nat)
            < below && (else_val.0 as nat) < below,
        Op::Case { scrutinee, arms, default } => (scrutinee.0 as nat) < below && (default.0 as nat)
            < below && forall|j: int| 0 <= j < arms@.len() ==> (arms@[j].1.0 as nat) < below,
        Op::MemRead { mem, addr } => (mem as nat) < nmems && (addr.0 as nat) < below,
        Op::MemReadReg { mem, .. } => (mem as nat) < nmems,
    }
}

/// The values are numbered in order and each names only earlier ones.
pub open spec fn values_ok(vals: Seq<ValueDef>, nports: nat, nmems: nat) -> bool {
    forall|i: int|
        #![trigger vals[i]]
        0 <= i < vals.len() ==> vals[i].id.0 == i && op_ok(vals[i].op, i as nat, nports, nmems)
}

/// A value id that exists.
pub open spec fn vid_ok(v: ValueId, n: nat) -> bool {
    (v.0 as nat) < n
}

pub open spec fn write_port_ok(w: WritePort, n: nat) -> bool {
    vid_ok(w.we, n) && vid_ok(w.addr, n) && vid_ok(w.data, n)
}

pub open spec fn mem_ok(m: Memory, n: nat) -> bool {
    &&& write_port_ok(m.idle, n)
    &&& forall|j: int| 0 <= j < m.write@.len() ==> write_port_ok(#[trigger] m.write@[j], n)
    &&& forall|j: int|
        0 <= j < m.read@.len() ==> vid_ok((#[trigger] m.read@[j]).addr, n) && vid_ok(
            m.read@[j].en,
            n,
        )
    &&& m.addr_width <= 128
}

/// Every register reads its next value from a value that exists.
pub open spec fn regs_read_below(vals: Seq<ValueDef>, nregs: nat) -> bool {
    forall|i: int|
        #![trigger vals[i]]
        0 <= i < vals.len() ==> (vals[i].op matches Op::RegRead(r) ==> (r as nat) < nregs)
}

/// A module whose references all resolve: values name earlier values, ports,
/// registers and memories that exist, and everything the module drives,
/// registers, writes and asserts is a value it defines.
pub open spec fn module_wf(m: Module) -> bool {
    let n = m.values@.len();
    &&& values_ok(m.values@, m.ports@.len(), m.mems@.len())
    &&& regs_read_below(m.values@, m.regs@.len())
    &&& forall|j: int|
        0 <= j < m.drivers@.len() ==> ((#[trigger] m.drivers@[j]).0.0 as nat) < m.ports@.len()
            && vid_ok(m.drivers@[j].1, n)
    &&& forall|j: int| 0 <= j < m.regs@.len() ==> vid_ok((#[trigger] m.regs@[j]).next, n)
    &&& forall|j: int| 0 <= j < m.mems@.len() ==> mem_ok(#[trigger] m.mems@[j], n)
    &&& forall|j: int| 0 <= j < m.asserts@.len() ==> vid_ok((#[trigger] m.asserts@[j]).cond, n)
}

impl Module {
    /// Whether the module needs `clk` and `rst_n`.
    ///
    /// A graph has no registers of its own and still needs both: every
    /// instance in it does.
    pub fn is_clocked(&self) -> (r: bool)
        ensures
            r == (self.regs@.len() > 0 || self.mems@.len() > 0 || self.instances@.len() > 0),
    {
        !self.regs.is_empty() || !self.mems.is_empty() || !self.instances.is_empty()
    }

    pub fn value(&self, id: ValueId) -> (r: &ValueDef)
        requires
            (id.0 as nat) < self.values@.len(),
        ensures
            *r == self.values@[id.0 as int],
    {
        &self.values[id.0 as usize]
    }

    pub fn port(&self, id: PortId) -> (r: &Port)
        requires
            (id.0 as nat) < self.ports@.len(),
        ensures
            *r == self.ports@[id.0 as int],
    {
        &self.ports[id.0 as usize]
    }
}

} // verus!
