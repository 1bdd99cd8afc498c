// Boundary adapters: the salt protocol on one side, an ordinary FIFO on the
// other.
//
// The salt protocol is how two things DDL compiled talk to each other. It is a
// bad thing to hand a person, so it does not cross a boundary. Every module a
// person writes Verilog against gets a plain FIFO instead:
//
//   a consumer's side   can_receive / receive_en / data_write_in
//   a producer's side   has_data    / drop_item  / data_read_out
//
// Two logic cores: the READ core drains a salt pipe and offers what it
// drained, the WRITE core accepts an item and pushes it onto one. Each core
// appears twice, once as a slave -- the far side says when -- and once as a
// master, where this side computes the enable from the far side's flag. That
// difference is one AND gate.

use vstd::prelude::*;
use crate::ir::{BinOp, UnOp, CmpOp, Op, PortDir, PortId, ValueId, ValueDef, Module, Port, vid_ok, module_wf,
    regs_read_below};
use crate::lowerer::{grows, other_salt_port, Lowerer, salt, salt_ty, bool_type, lemma_emitted, pipe_ok};
use crate::ir_comb::{RegSlot, out_side, push_out, assemble, builder_ok, slots_in_order,
    drivers_ok, lemma_grows_appended, lemma_grows_trans, lemma_regs_read_below_grows, loads, index_of_salt,
    steps_on};
use crate::ty::{Ty, bool_ty, width};
use crate::text::{dec, push_decimal};

verus! {

/// Which way an adapter faces, and who computes the enable.
#[derive(Debug, Clone, Copy, PartialEq, Eq, Structural)]
pub enum Adapt {
    /// Drains a salt pipe and offers what it drained as a read port. Sits at
    /// an export target's `buffer out`.
    SaltToRport,
    /// Drains a salt pipe and writes it into a foreign module's write port.
    /// Sits at an `extern`'s `buffer in`.
    SaltToWport,
    /// Accepts writes on a write port and pushes them onto a salt pipe. Sits
    /// at an export target's `buffer in`.
    WportToSalt,
    /// Reads a foreign module's read port and pushes what it reads onto a
    /// salt pipe. Sits at an `extern`'s `buffer out`.
    RportToSalt,
}

/// A consumer's face: someone outside writes items in.
pub open spec fn write_face() -> Seq<Seq<char>> {
    seq!["can_receive"@, "receive_en"@, "data_write_in"@]
}

/// A producer's face: someone outside reads items out.
pub open spec fn read_face() -> Seq<Seq<char>> {
    seq!["has_data"@, "drop_item"@, "data_read_out"@]
}

pub open spec fn adapt_face(kind: Adapt) -> Seq<Seq<char>> {
    match kind {
        Adapt::SaltToWport | Adapt::WportToSalt => write_face(),
        Adapt::SaltToRport | Adapt::RportToSalt => read_face(),
    }
}

pub open spec fn adapt_what(kind: Adapt) -> Seq<char> {
    match kind {
        Adapt::SaltToRport => "salt_to_rport"@,
        Adapt::SaltToWport => "salt_to_wport"@,
        Adapt::WportToSalt => "wport_to_salt"@,
        Adapt::RportToSalt => "rport_to_salt"@,
    }
}

pub open spec fn adapt_at(is_input: bool, foreign: bool) -> Adapt {
    match (is_input, foreign) {
        (true, true) => Adapt::SaltToWport,
        (false, true) => Adapt::RportToSalt,
        (true, false) => Adapt::WportToSalt,
        (false, false) => Adapt::SaltToRport,
    }
}

/// Whether the adapter drains a salt pipe (rather than filling one).
pub open spec fn reads_salt(kind: Adapt) -> bool {
    kind == Adapt::SaltToRport || kind == Adapt::SaltToWport
}

pub open spec fn salt_pipe_name(kind: Adapt) -> Seq<char> {
    if reads_salt(kind) { "i"@ } else { "o"@ }
}

/// The directions of the flag, the `go` and the data.
///
/// The flag always points away from the side holding the storage, and the
/// `go` always points into it.
pub open spec fn face_dirs(kind: Adapt) -> (PortDir, PortDir, PortDir) {
    match kind {
        Adapt::SaltToRport => (PortDir::Out, PortDir::In, PortDir::Out),
        Adapt::WportToSalt => (PortDir::Out, PortDir::In, PortDir::In),
        Adapt::SaltToWport => (PortDir::In, PortDir::Out, PortDir::Out),
        Adapt::RportToSalt => (PortDir::In, PortDir::Out, PortDir::In),
    }
}

impl Adapt {
    /// Which adapter belongs at one pipe of a module a person will wire up.
    ///
    /// `is_input` is the pipe's direction ON THAT MODULE, and `foreign` says
    /// whether the module is one DDL did not compile.
    pub fn at(is_input: bool, foreign: bool) -> (r: Adapt)
        ensures
            r == adapt_at(is_input, foreign),
    {
        match (is_input, foreign) {
            (true, true) => Adapt::SaltToWport,
            (false, true) => Adapt::RportToSalt,
            (true, false) => Adapt::WportToSalt,
            (false, false) => Adapt::SaltToRport,
        }
    }

    /// The three signals of the FIFO face, in declaration order.
    pub fn face(&self) -> (r: [&'static str; 3])
        ensures
            r@.len() == 3,
            forall|j: int| 0 <= j < 3 ==> (#[trigger] r@[j])@ == adapt_face(*self)[j],
    {
        match self {
            Adapt::SaltToWport | Adapt::WportToSalt => {
                let r = ["can_receive", "receive_en", "data_write_in"];
                proof {
                    assert(r@[0]@ == "can_receive"@);
                    assert(r@[1]@ == "receive_en"@);
                    assert(r@[2]@ == "data_write_in"@);
                }
                r
            },
            Adapt::SaltToRport | Adapt::RportToSalt => {
                let r = ["has_data", "drop_item", "data_read_out"];
                proof {
                    assert(r@[0]@ == "has_data"@);
                    assert(r@[1]@ == "drop_item"@);
                    assert(r@[2]@ == "data_read_out"@);
                }
                r
            },
        }
    }

    /// The name of the adapter's own salt pipe.
    pub fn salt_pipe(&self) -> (r: &'static str)
        ensures
            r@ == salt_pipe_name(*self),
    {
        match self {
            Adapt::SaltToRport | Adapt::SaltToWport => "i",
            Adapt::WportToSalt | Adapt::RportToSalt => "o",
        }
    }

    fn what(&self) -> (r: &'static str)
        ensures
            r@ == adapt_what(*self),
    {
        match self {
            Adapt::SaltToRport => "salt_to_rport",
            Adapt::SaltToWport => "salt_to_wport",
            Adapt::WportToSalt => "wport_to_salt",
            Adapt::RportToSalt => "rport_to_salt",
        }
    }
}

/// One adapter a boundary asked for: which way, and carrying what.
///
/// Keyed by shape rather than by use: two boundaries of the same width and
/// direction are one module instantiated twice.
#[derive(Debug)]
pub struct AdaptUse {
    pub kind: Adapt,
    pub ty: Ty,
}

/// `ddl_<what>_<width>`.
pub open spec fn adapt_name(kind: Adapt, w: nat) -> Seq<char> {
    "ddl_"@ + adapt_what(kind) + "_"@ + dec(w)
}

/// The module name for one shape.
///
/// The width is the payload's and not the pair's: a FIFO face carries one item
/// at a time, which is the whole point of it.
pub fn module_name(kind: Adapt, ty: &Ty) -> (s: String)
    requires
        width(*ty) <= u32::MAX,
    ensures
        s@ == adapt_name(kind, width(*ty)),
{
    let mut s = String::from_str("ddl_");
    s.append(kind.what());
    s.append("_");
    push_decimal(&mut s, ty.bit_width() as u64);
    s
}

/// The number of registers an adapter holds: the read core's `rsalt`, or the
/// write core's two entries and `wsalt`.
pub open spec fn adapt_slots(kind: Adapt) -> nat {
    if reads_salt(kind) { 1 } else { 3 }
}

/// The read core's logic over values `vals`: `take` is `has_item` -- the
/// write salt on port `wport` differs from the read salt register -- ANDed
/// with the far side's `drop_item` (slave) or `can_receive` (master); the
/// read salt register's `next` toggles a bit on `take` and holds otherwise;
/// `has_data` is driven by `has_item` (slave) or `receive_en` by `take`
/// (master), and the read salt port `rport` by the register.
pub open spec fn read_core_in(vals: Seq<ValueDef>, next: ValueId, drivers: Seq<(PortId, ValueId)>, kind: Adapt, wport: PortId, rport: PortId) -> bool {
    &&& (next.0 as int) < vals.len()
    &&& vals[next.0 as int].op matches Op::Mux { cond: take, then_val: toggled, else_val: q }
    &&& (q.0 as int) < vals.len() && vals[q.0 as int].op == Op::RegRead(0)
    &&& (toggled.0 as int) < vals.len()
    &&& vals[toggled.0 as int].op matches Op::Bin { op: BinOp::Xor, lhs: q1, .. }
    &&& q1 == q
    &&& (take.0 as int) < vals.len()
    &&& vals[take.0 as int].op matches Op::Bin { op: BinOp::And, lhs: has, rhs: far }
    &&& (has.0 as int) < vals.len()
    &&& vals[has.0 as int].op matches Op::Un { op: UnOp::LogNot, arg: empty }
    &&& (empty.0 as int) < vals.len()
    &&& vals[empty.0 as int].op matches Op::Cmp { op: CmpOp::Eq, lhs: w, rhs: q2 }
    &&& q2 == q
    &&& (w.0 as int) < vals.len() && vals[w.0 as int].op == Op::Port(wport)
    &&& (far.0 as int) < vals.len() && vals[far.0 as int].op == Op::Port(if kind == Adapt::SaltToRport { PortId(6) } else { PortId(5) })
    &&& drivers.contains(if kind == Adapt::SaltToRport { (PortId(5), has) } else { (PortId(6), take) })
    &&& drivers.contains((rport, q))
}

/// The write core's logic over values `vals`: `push` is the far side's
/// `receive_en` (slave) or `has_data` (master) ANDed with `room` -- the write
/// salt register does not differ from the read salt on port `rport` in both
/// bits; the write salt register's `next` steps on `push` and holds
/// otherwise; `can_receive` is driven by `room` (slave) or `drop_item` by
/// `push` (master).
pub open spec fn write_core_in(vals: Seq<ValueDef>, next: ValueId, drivers: Seq<(PortId, ValueId)>, kind: Adapt, rport: PortId) -> bool {
    &&& (next.0 as int) < vals.len()
    &&& vals[next.0 as int].op matches Op::Mux { cond: push, else_val: q, .. }
    &&& (q.0 as int) < vals.len() && vals[q.0 as int].op is RegRead
    &&& (push.0 as int) < vals.len()
    &&& vals[push.0 as int].op matches Op::Bin { op: BinOp::And, lhs: far, rhs: room }
    &&& (far.0 as int) < vals.len() && vals[far.0 as int].op == Op::Port(if kind == Adapt::WportToSalt { PortId(6) } else { PortId(5) })
    &&& (room.0 as int) < vals.len()
    &&& vals[room.0 as int].op matches Op::Un { op: UnOp::LogNot, arg: full }
    &&& (full.0 as int) < vals.len()
    &&& vals[full.0 as int].op matches Op::Cmp { op: CmpOp::Eq, lhs: q2, rhs: flipped }
    &&& q2 == q
    &&& (flipped.0 as int) < vals.len()
    &&& vals[flipped.0 as int].op matches Op::Un { op: UnOp::BitNot, arg: r }
    &&& (r.0 as int) < vals.len() && vals[r.0 as int].op == Op::Port(rport)
    &&& drivers.contains(if kind == Adapt::WportToSalt { (PortId(5), room) } else { (PortId(6), push) })
}

/// The write core's entries over `vals`: the far side's data word on port 7
/// is what both entries load, each on a `push` the write index points at it,
/// and the write salt steps on that same `push`.
pub open spec fn entries_take(vals: Seq<ValueDef>, n0: ValueId, n1: ValueId, n2: ValueId, item: ValueId, push: ValueId,
    idx: ValueId) -> bool {
    &&& (item.0 as int) < vals.len() && vals[item.0 as int].op == Op::Port(PortId(7))
    &&& index_of_salt(vals, idx, 2)
    &&& steps_on(vals, n2, 2, push)
    &&& loads(vals, 0, n0, 0, item, push, idx, false)
    &&& loads(vals, 0, n1, 1, item, push, idx, true)
}

/// The write core's entries, as `entries_take` states them for some values.
pub open spec fn write_entries_in(vals: Seq<ValueDef>, n0: ValueId, n1: ValueId, n2: ValueId) -> bool {
    exists|item: ValueId, push: ValueId, idx: ValueId| #[trigger] entries_take(vals, n0, n1, n2, item, push, idx)
}

proof fn lemma_grows_tr(a: Seq<ValueDef>, b: Seq<ValueDef>, c: Seq<ValueDef>)
    requires
        grows(a, b),
        grows(b, c),
    ensures
        grows(a, c),
{
    assert forall|i: int| 0 <= i < a.len() implies #[trigger] c[i].id == a[i].id && c[i].ty == a[i].ty && c[i].op == a[i].op by {
        assert(b[i].op == a[i].op);
    }
}

/// Builds one adapter module.
///
/// The module is well formed, and its ports are the clock, the adapter's
/// salt pipe, and the FIFO face.
pub fn build(kind: Adapt, ty: &Ty) -> (m: Module)
    requires
        // A reader picks its item out of the data word with `hi: width - 1`,
        // which has no value for a zero-width type.
        reads_salt(kind) ==> 1 <= width(*ty),
        2 * width(*ty) <= u32::MAX,
    ensures
        module_wf(m),
        m.name@ == adapt_name(kind, width(*ty)),
        m.ports@.len() == 8,
        m.ports@[0].name@ == "clk"@,
        m.ports@[1].name@ == "rst_n"@,
        crate::lowerer::pipe_ports(m.ports@, 2, salt_pipe_name(kind), *ty, reads_salt(kind)),
        m.ports@[5].name@ == adapt_face(kind)[0] && m.ports@[5].dir == face_dirs(kind).0 && m.ports@[5].ty == bool_ty(),
        m.ports@[6].name@ == adapt_face(kind)[1] && m.ports@[6].dir == face_dirs(kind).1 && m.ports@[6].ty == bool_ty(),
        m.ports@[7].name@ == adapt_face(kind)[2] && m.ports@[7].dir == face_dirs(kind).2 && m.ports@[7].ty == *ty,
        m.regs@.len() == adapt_slots(kind),
        forall|j: int| 0 <= j < m.regs@.len() ==> (#[trigger] m.regs@[j]).reset == 0,
        m.mems@.len() == 0 && m.asserts@.len() == 0 && m.params@.len() == 0,
        m.nets@.len() == 0 && m.instances@.len() == 0 && m.calls@.len() == 0,
        reads_salt(kind) ==> read_core_in(m.values@, m.regs@[0].next, m.drivers@, kind, PortId(2), PortId(3)),
        !reads_salt(kind) ==> write_core_in(m.values@, m.regs@[2].next, m.drivers@, kind, PortId(3)),
        // The registers, by name.
        reads_salt(kind) ==> m.regs@[0].name@ == "rsalt_q"@,
        // A reader presents on its data port the entry its read index picks.
        reads_salt(kind) ==> m.drivers@[0].0 == PortId(7) && crate::ir_comb::entry_of(m.values@, m.drivers@[0].1, *ty, 4, 0),
        !reads_salt(kind) ==> {
            &&& m.regs@[0].name@ == salt_pipe_name(kind) + "_e0"@
            &&& m.regs@[1].name@ == salt_pipe_name(kind) + "_e1"@
            &&& m.regs@[2].name@ == salt_pipe_name(kind) + "_wsalt_q"@
            &&& write_entries_in(m.values@, m.regs@[0].next, m.regs@[1].next, m.regs@[2].next)
        },
{
    let mut low = Lowerer::new();
    let mut env = crate::env::Env::new();
    low.declare_clock(&mut env);
    let is_reader = match kind {
        Adapt::SaltToRport | Adapt::SaltToWport => true,
        _ => false,
    };
    let ghost v1 = low.vals();
    let ghost p1 = low.ports_view();
    low.declare_pipe(String::from_str(kind.salt_pipe()), ty.clone(), is_reader);
    let ghost p2 = low.ports_view();

    let face = kind.face();
    let (flag_dir, go_dir, data_dir) = match kind {
        Adapt::SaltToRport => (PortDir::Out, PortDir::In, PortDir::Out),
        Adapt::WportToSalt => (PortDir::Out, PortDir::In, PortDir::In),
        Adapt::SaltToWport => (PortDir::In, PortDir::Out, PortDir::Out),
        Adapt::RportToSalt => (PortDir::In, PortDir::Out, PortDir::In),
    };
    let flag_port = low.declare_raw_port(String::from_str(face[0]), flag_dir, bool_type());
    let go_port = low.declare_raw_port(String::from_str(face[1]), go_dir, bool_type());
    let data_port = low.declare_raw_port(String::from_str(face[2]), data_dir, ty.clone());
    let ghost ports = low.ports_view();
    proof {
        assert(ports.subrange(0, p2.len() as int) =~= p2) by {
            assert forall|i: int| 0 <= i < p2.len() implies ports.subrange(0, p2.len() as int)[i] == p2[i] by {}
        }
        assert(ports[0] == p2[0]);
        assert(ports[1] == p2[1]);
        assert(p2[0] == p2.subrange(0, p1.len() as int)[0]);
        assert(p2[1] == p2.subrange(0, p1.len() as int)[1]);
        assert(ports[2] == p2[2] && ports[3] == p2[3] && ports[4] == p2[4]);
        assert forall|i: int| 0 <= i < low.vals().len() implies !(#[trigger] low.vals()[i].op is RegRead) by {
            if i < v1.len() {
                assert(low.vals().subrange(0, v1.len() as int)[i] == low.vals()[i]);
            }
        }
    }

    let mut regs: Vec<RegSlot> = Vec::new();
    let mut drivers: Vec<(PortId, ValueId)> = Vec::new();
    proof {
        assert(low.pipes@[0].name@ == salt_pipe_name(kind));
    }

    if is_reader {
        read_core(&mut low, kind, flag_port, go_port, data_port, &mut regs, &mut drivers);
    } else {
        write_core(&mut low, kind, ty, flag_port, go_port, data_port, &mut regs, &mut drivers);
    }
    let name = module_name(kind, ty);
    let ghost rs = regs@;
    let m = assemble(low, name, regs, drivers);
    proof {
        assert(m.regs@[0].name@ == rs[0].1@);
        if !is_reader {
            assert(m.regs@[1].name@ == rs[1].1@);
            assert(m.regs@[2].name@ == rs[2].1@);
        }
    }
    m
}

/// The READ core: one `rsalt` register. What it offers is what the producer
/// committed on an earlier cycle, so the item is stable for as long as it is
/// offered and the far side may take as long as it likes over it.
fn read_core(
    low: &mut Lowerer,
    kind: Adapt,
    flag_port: PortId,
    go_port: PortId,
    data_port: PortId,
    regs: &mut Vec<RegSlot>,
    drivers: &mut Vec<(PortId, ValueId)>,
)
    requires
        old(low).inv(),
        old(low).mems@.len() == 0,
        crate::lowerer::no_reg_reads(old(low).vals(), 0),
        old(low).vals().len() <= 3,
        old(low).pipes@.len() == 1,
        old(low).pipes@[0].is_input,
        old(low).pipes@[0].data_value is Some,
        crate::ir_comb::input_data(old(low).vals(), old(low).pipes@[0], 0),
        1 <= width(old(low).pipes@[0].ty),
        (flag_port.0 as nat) < old(low).ports_view().len(),
        (go_port.0 as nat) < old(low).ports_view().len(),
        (data_port.0 as nat) < old(low).ports_view().len(),
        old(regs)@.len() == 0,
        old(drivers)@.len() == 0,
    ensures
        builder_ok(*final(low), 1),
        final(low).ports_view() == old(low).ports_view(),
        slots_in_order(final(regs)@, 1, final(low).vals().len()),
        drivers_ok(final(drivers)@, final(low).ports_view().len(), final(low).vals().len()),
        reads_salt(kind) && flag_port == PortId(5) && go_port == PortId(6)
            ==> read_core_in(final(low).vals(), final(regs)@[0].3, final(drivers)@, kind,
                other_salt_port(old(low).pipes@[0]), old(low).pipes@[0].rsalt_port),
        final(regs)@[0].1@ == "rsalt_q"@,
        // The data port carries the entry of the pipe's data word that the
        // read index picks.
        final(drivers)@[0].0 == data_port,
        crate::ir_comb::entry_of(final(low).vals(), final(drivers)@[0].1, old(low).pipes@[0].ty, 4, 0),
{
    let ghost np = low.ports_view().len();
    let ghost b0 = *low;
    let rsalt_q = low.emit(salt(), Op::RegRead(0));
    proof {
        lemma_emitted(b0.vals(), salt_ty(), Op::RegRead(0));
        assert forall|i: int| 0 <= i < low.vals().len() implies (#[trigger] low.vals()[i]).op matches Op::RegRead(r) ==> (r as nat) < 1 by {
            if i < b0.vals().len() {
                assert(low.vals().subrange(0, b0.vals().len() as int)[i] == low.vals()[i]);
            }
        }
    }
    low.name_value_safe(rsalt_q, String::from_str("rsalt_q"));
    let ghost b1 = *low;
    let empty = low.pipe_empty(0, rsalt_q);
    let ghost b2 = *low;
    let has_item = low.emit(bool_type(), Op::Un { op: UnOp::LogNot, arg: empty });
    proof {
        lemma_grows_appended(b1.vals(), b2.vals(), 2);
        lemma_emitted(b2.vals(), bool_ty(), Op::Un { op: UnOp::LogNot, arg: empty });
        lemma_grows_trans(b1.vals(), b2.vals(), low.vals());
    }
    low.name_value_safe(has_item, String::from_str("has_item"));
    let ghost b3 = *low;
    let item = low.pipe_item_at(0, rsalt_q);
    let ridx = match low.pipes[0].idx {
        Some(v) => v,
        None => { proof { assert(false); } ValueId(0) },
    };
    proof {
        lemma_grows_trans(b1.vals(), b2.vals(), b3.vals());
        lemma_grows_appended(b3.vals(), low.vals(), 6);
        lemma_grows_trans(b1.vals(), b3.vals(), low.vals());
        lemma_regs_read_below_grows(b1.vals(), low.vals(), 1);
    }
    let ghost b4 = *low;
    let ghost mut far_g = ValueId(0);
    let take = match kind {
        // Slave. The AND with `has_item` is kept rather than trusted away: a
        // far side that raised `drop_item` on an empty cycle would otherwise
        // walk the read pointer past the write pointer.
        Adapt::SaltToRport => {
            let dropped = low.emit(bool_type(), Op::Port(go_port));
            proof { lemma_emitted(b4.vals(), bool_ty(), Op::Port(go_port)); far_g = dropped; }
            low.name_value_safe(dropped, String::from_str("drop_item_in"));
            let ghost m = *low;
            let t = low.emit(bool_type(), Op::Bin { op: BinOp::And, lhs: has_item, rhs: dropped });
            proof {
                lemma_emitted(m.vals(), bool_ty(), Op::Bin { op: BinOp::And, lhs: has_item, rhs: dropped });
                lemma_grows_trans(b4.vals(), m.vals(), low.vals());
            }
            t
        },
        // Master: write whenever there is something to write and the far
        // side says it can receive.
        _ => {
            let can = low.emit(bool_type(), Op::Port(flag_port));
            proof { lemma_emitted(b4.vals(), bool_ty(), Op::Port(flag_port)); far_g = can; }
            low.name_value_safe(can, String::from_str("can_receive_in"));
            let ghost m = *low;
            let t = low.emit(bool_type(), Op::Bin { op: BinOp::And, lhs: has_item, rhs: can });
            proof {
                lemma_emitted(m.vals(), bool_ty(), Op::Bin { op: BinOp::And, lhs: has_item, rhs: can });
                lemma_grows_trans(b4.vals(), m.vals(), low.vals());
            }
            t
        },
    };
    let ghost b4t = low.vals();
    low.name_value_safe(take, String::from_str("take"));
    proof { lemma_regs_read_below_grows(b4.vals(), low.vals(), 1); }

    drivers.push((data_port, item));
    match kind {
        Adapt::SaltToRport => drivers.push((flag_port, has_item)),
        _ => drivers.push((go_port, take)),
    }
    let ghost b5 = *low;
    let next = low.salt_next(rsalt_q, ridx, take);
    proof {
        lemma_grows_appended(b5.vals(), low.vals(), 5);
        lemma_regs_read_below_grows(b5.vals(), low.vals(), 1);
        assert(pipe_ok(low.pipes@[0], low.vals().len(), np));
    }
    regs.push((0, String::from_str("rsalt_q"), salt(), next));
    drivers.push((low.pipes[0].rsalt_port, rsalt_q));
    proof {
        let v = low.vals();
        lemma_grows_tr(b1.vals(), b2.vals(), b3.vals());
        lemma_grows_tr(b3.vals(), b4.vals(), b4t);
        lemma_grows_tr(b4t, b5.vals(), v);
        lemma_grows_tr(b3.vals(), b4t, v);
        lemma_grows_tr(b1.vals(), b3.vals(), v);
        let n1 = b1.vals().len();
        assert(v[rsalt_q.0 as int].op == b1.vals()[rsalt_q.0 as int].op);
        assert(v[n1 as int].op == b2.vals()[n1 as int].op);
        assert(v[empty.0 as int].op == b2.vals()[empty.0 as int].op);
        assert(v[has_item.0 as int].op == b3.vals()[has_item.0 as int].op);
        assert(v[take.0 as int].op == b4t[take.0 as int].op);
        assert(v[far_g.0 as int].op == b4t[far_g.0 as int].op);
        assert(b4t[take.0 as int].op == (Op::Bin { op: BinOp::And, lhs: has_item, rhs: far_g }));
        assert(drivers@[1] == (if kind == Adapt::SaltToRport { (flag_port, has_item) } else { (go_port, take) }));
        assert(drivers@[2] == (old(low).pipes@[0].rsalt_port, rsalt_q));
        let at = b5.vals().len();
        assert(v[next.0 as int].op == (Op::Mux { cond: take, then_val: ValueId((at + 3) as u32), else_val: rsalt_q }));
        assert(v[at + 3int].op == (Op::Bin { op: BinOp::Xor, lhs: rsalt_q, rhs: ValueId((at + 2) as u32) }));
        assert(b1.pipes@[0] == old(low).pipes@[0]);
        assert(v[n1 as int].op == Op::Port(other_salt_port(old(low).pipes@[0])));
        assert(regs@[0].3 == next);
        // The item: grown from the state right after it was picked.
        lemma_grows_tr(b0.vals(), crate::lowerer::emitted(b0.vals(), salt_ty(), Op::RegRead(0)), b1.vals());
        lemma_grows_tr(b0.vals(), b1.vals(), b3.vals());
        let dv = old(low).pipes@[0].data_value->0;
        assert(b4.vals()[dv.0 as int].op == b3.vals()[dv.0 as int].op);
        assert(b4.vals()[rsalt_q.0 as int].op == b3.vals()[rsalt_q.0 as int].op);
        assert(crate::ir_comb::entry_of(b4.vals(), item, old(low).pipes@[0].ty, 4, 0));
        lemma_grows_tr(b4.vals(), b4t, v);
        crate::ir_comb::lemma_entry_grows(b4.vals(), v, item, old(low).pipes@[0].ty, 4, 0);
    }
}

/// The WRITE core: two entries and a `wsalt`, the same shape a process's
/// output has.
fn write_core(
    low: &mut Lowerer,
    kind: Adapt,
    ty: &Ty,
    flag_port: PortId,
    go_port: PortId,
    data_port: PortId,
    regs: &mut Vec<RegSlot>,
    drivers: &mut Vec<(PortId, ValueId)>,
)
    requires
        old(low).inv(),
        old(low).mems@.len() == 0,
        crate::lowerer::no_reg_reads(old(low).vals(), 0),
        old(low).vals().len() <= 3,
        old(low).pipes@.len() == 1,
        (flag_port.0 as nat) < old(low).ports_view().len(),
        (go_port.0 as nat) < old(low).ports_view().len(),
        (data_port.0 as nat) < old(low).ports_view().len(),
        old(regs)@.len() == 0,
        old(drivers)@.len() == 0,
    ensures
        builder_ok(*final(low), 3),
        final(low).ports_view() == old(low).ports_view(),
        slots_in_order(final(regs)@, 3, final(low).vals().len()),
        drivers_ok(final(drivers)@, final(low).ports_view().len(), final(low).vals().len()),
        (kind == Adapt::WportToSalt || kind == Adapt::RportToSalt) && flag_port == PortId(5) && go_port == PortId(6)
            ==> write_core_in(final(low).vals(), final(regs)@[2].3, final(drivers)@, kind, other_salt_port(old(low).pipes@[0])),
        final(regs)@[0].1@ == old(low).pipes@[0].name@ + "_e0"@,
        final(regs)@[1].1@ == old(low).pipes@[0].name@ + "_e1"@,
        final(regs)@[2].1@ == old(low).pipes@[0].name@ + "_wsalt_q"@,
        data_port == PortId(7) ==> write_entries_in(final(low).vals(), final(regs)@[0].3, final(regs)@[1].3, final(regs)@[2].3),
{
    let ghost np = low.ports_view().len();
    let ghost b0 = *low;
    let side = out_side(low, 0, 0);
    proof {
        assert forall|i: int| 0 <= i < low.vals().len() implies (#[trigger] low.vals()[i]).op matches Op::RegRead(r) ==> (r as nat) < 3 by {
            if i < b0.vals().len() {
                assert(low.vals().subrange(0, b0.vals().len() as int)[i] == low.vals()[i]);
            }
        }
    }
    let ghost b1 = *low;
    let room = low.emit(bool_type(), Op::Un { op: UnOp::LogNot, arg: side.full });
    proof { lemma_emitted(b1.vals(), bool_ty(), Op::Un { op: UnOp::LogNot, arg: side.full }); }
    low.name_value_safe(room, String::from_str("room"));
    let ghost b2 = *low;
    let item = low.emit(ty.clone(), Op::Port(data_port));
    proof { lemma_emitted(b2.vals(), *ty, Op::Port(data_port)); lemma_grows_trans(b1.vals(), b2.vals(), low.vals()); }
    low.name_value_safe(item, String::from_str("item"));
    let ghost b3 = *low;
    let push = match kind {
        // Slave: the far side raises `receive_en`, gated by the `room` this
        // module already published as `can_receive`.
        Adapt::WportToSalt => {
            let en = low.emit(bool_type(), Op::Port(go_port));
            proof { lemma_emitted(b3.vals(), bool_ty(), Op::Port(go_port)); }
            low.name_value_safe(en, String::from_str("receive_en_in"));
            let ghost m = *low;
            let p = low.emit(bool_type(), Op::Bin { op: BinOp::And, lhs: en, rhs: room });
            proof {
                lemma_emitted(m.vals(), bool_ty(), Op::Bin { op: BinOp::And, lhs: en, rhs: room });
                lemma_grows_trans(b3.vals(), m.vals(), low.vals());
            }
            p
        },
        // Master: take one whenever the far side has one and there is room.
        _ => {
            let has = low.emit(bool_type(), Op::Port(flag_port));
            proof { lemma_emitted(b3.vals(), bool_ty(), Op::Port(flag_port)); }
            low.name_value_safe(has, String::from_str("has_data_in"));
            let ghost m = *low;
            let p = low.emit(bool_type(), Op::Bin { op: BinOp::And, lhs: has, rhs: room });
            proof {
                lemma_emitted(m.vals(), bool_ty(), Op::Bin { op: BinOp::And, lhs: has, rhs: room });
                lemma_grows_trans(b3.vals(), m.vals(), low.vals());
            }
            p
        },
    };
    low.name_value_safe(push, String::from_str("push"));
    proof {
        lemma_grows_trans(b1.vals(), b3.vals(), low.vals());
        lemma_regs_read_below_grows(b1.vals(), low.vals(), 3);
    }
    match kind {
        Adapt::WportToSalt => drivers.push((flag_port, room)),
        _ => drivers.push((go_port, push)),
    }
    let ghost b4 = *low;
    let ghost d0 = drivers@;
    push_out(low, 0, &side, item, push, regs, drivers);
    proof {
        lemma_regs_read_below_grows(b4.vals(), low.vals(), 3);
        assert(pipe_ok(low.pipes@[0], low.vals().len(), np));
        assert(drivers@[0] == d0[0]);
        assert(regs@.subrange(0, 0) =~= Seq::<RegSlot>::empty());
        // What the entries load.
        let v = low.vals();
        lemma_grows_tr(b2.vals(), b3.vals(), b4.vals());
        lemma_grows_tr(b1.vals(), b2.vals(), b4.vals());
        lemma_grows_tr(b1.vals(), b4.vals(), v);
        assert(v[item.0 as int].op == b3.vals()[item.0 as int].op);
        crate::ir_comb::lemma_index_grows(b1.vals(), v, side.widx, 2);
        assert(v[side.wsalt_q.0 as int].op == b1.vals()[side.wsalt_q.0 as int].op);
        assert(steps_on(v, regs@[2].3, 2, push));
        assert(loads(v, 0, regs@[0].3, 0, item, push, side.widx, false));
        assert(loads(v, 0, regs@[1].3, 1, item, push, side.widx, true));
        assert(data_port == PortId(7) ==> entries_take(v, regs@[0].3, regs@[1].3, regs@[2].3, item, push, side.widx));
    }
}

/// An adapter's name is its shape: two with one name are the same
/// direction and width.
pub proof fn law_adapt_name_is_the_shape(k1: Adapt, w1: nat, k2: Adapt, w2: nat)
    requires
        adapt_name(k1, w1) == adapt_name(k2, w2),
    ensures
        k1 == k2,
        w1 == w2,
{
    reveal_strlit("ddl_");
    reveal_strlit("salt_to_rport");
    reveal_strlit("salt_to_wport");
    reveal_strlit("wport_to_salt");
    reveal_strlit("rport_to_salt");
    reveal_strlit("_");
    let s = adapt_name(k1, w1);
    assert(s[4] == adapt_what(k1)[0] && s[12] == adapt_what(k1)[8]);
    assert(s[4] == adapt_what(k2)[0] && s[12] == adapt_what(k2)[8]);
    assert(k1 == k2);
    let p = "ddl_"@ + adapt_what(k1) + "_"@;
    assert(s =~= p + dec(w1));
    assert(adapt_name(k2, w2) =~= p + dec(w2));
    assert(dec(w1) =~= s.skip(p.len() as int));
    assert(dec(w2) =~= s.skip(p.len() as int));
    crate::text::lemma_dec_injective(w1, w2);
}

} // verus!
