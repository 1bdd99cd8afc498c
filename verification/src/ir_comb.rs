// Pipe combinators: modules the compiler writes rather than the program.
//
// `@merge` and `@split` are structural. These build the datapath directly: one
// transfer per cycle through either, and no state beyond the entries the
// protocol already requires.
//
// Both obey the two rules everything else does. A `wsalt` is a register, so it
// never depends combinationally on the `rsalt` coming back. And nothing is
// ever dropped: a `@split` takes from its input only when EVERY sink has room,
// and a `@merge` grants one input at a time and leaves the others where they
// are.

use vstd::prelude::*;
use crate::ir::{BinOp, CmpOp, UnOp, Op, PortId, ValueId, ValueDef, Module, Reg, vid_ok, module_wf,
    values_ok, regs_read_below};
use crate::lowerer::{Lowerer, salt, salt_ty, bool_type, suffixed, def_is, appended, named,
    salt_idx_at, salt_next_at, regs_read_in, grows, no_reg_reads, lemma_emitted, pipe_ok,
    other_salt_port, entry_at};
use crate::ty::{Ty, bool_ty, width, bits_for};
use crate::text::{dec, push_decimal};
use crate::lower_mem::{computed, leaves_fit, lemma_leaves_fit_grows, lemma_computed_grows, lemma_or_chain,
    lemma_and_chain, lemma_and_emitted, lemma_leaves_fit_back};
use crate::lowerer::{emitted, emit_result};

verus! {

/// Which combinator a graph asked for.
#[derive(Debug, Clone, Copy, PartialEq, Eq, Structural)]
pub enum Comb {
    /// `@merge(a, b, .., out)` -- several producers onto one pipe, one at a
    /// time, in rotation.
    Merge,
    /// `@split(in, a, b, ..)` -- one producer to several consumers, each
    /// getting its own copy.
    Split,
}

impl Comb {
    pub fn of(name: &str) -> (r: Option<Comb>)
        ensures
            r == (if name@ == "@merge"@ {
                Some(Comb::Merge)
            } else if name@ == "@split"@ {
                Some(Comb::Split)
            } else {
                None
            }),
    {
        let s = String::from_str(name);
        if s == String::from_str("@merge") {
            Some(Comb::Merge)
        } else if s == String::from_str("@split") {
            Some(Comb::Split)
        } else {
            None
        }
    }

    pub fn spelling(&self) -> (r: &'static str)
        ensures
            r@ == (match *self {
                Comb::Merge => "@merge"@,
                Comb::Split => "@split"@,
            }),
    {
        match self {
            Comb::Merge => "@merge",
            Comb::Split => "@split",
        }
    }

    /// How many of the arguments are on the many-side.
    pub fn fan(&self, args: usize) -> (r: usize)
        requires
            args >= 1,
        ensures
            r == args - 1,
    {
        args - 1
    }
}

pub open spec fn comb_what(kind: Comb) -> Seq<char> {
    match kind {
        Comb::Merge => "merge"@,
        Comb::Split => "split"@,
    }
}

/// `ddl_<merge|split>_<fan>x<width>`.
pub open spec fn comb_name(kind: Comb, fan: nat, w: nat) -> Seq<char> {
    "ddl_"@ + comb_what(kind) + "_"@ + dec(fan) + "x"@ + dec(w)
}

/// The module name for one instantiation.
///
/// Keyed by shape rather than by use, so two merges of the same arity and
/// payload are one module instantiated twice.
pub fn module_name(kind: Comb, fan: usize, ty: &Ty) -> (s: String)
    requires
        width(*ty) <= u32::MAX,
    ensures
        s@ == comb_name(kind, fan as nat, width(*ty)),
{
    let mut s = String::from_str("ddl_");
    match kind {
        Comb::Merge => s.append("merge"),
        Comb::Split => s.append("split"),
    }
    s.append("_");
    push_decimal(&mut s, fan as u64);
    s.append("x");
    push_decimal(&mut s, ty.bit_width() as u64);
    s
}

/// `prefix` followed by `k` in decimal and `suffix`.
pub fn numbered(prefix: &str, k: usize, suffix: &str) -> (s: String)
    ensures
        s@ == prefix@ + dec(k as nat) + suffix@,
{
    let mut s = String::from_str(prefix);
    push_decimal(&mut s, k as u64);
    s.append(suffix);
    s
}

/// `prefix` followed by `k` in decimal.
pub fn numbered0(prefix: &str, k: usize) -> (s: String)
    ensures
        s@ == prefix@ + dec(k as nat),
{
    let mut s = String::from_str(prefix);
    push_decimal(&mut s, k as u64);
    s
}

/// The pipes of a combinator, in the order a graph passes them.
pub open spec fn comb_pipe(kind: Comb, fan: nat, j: nat) -> (Seq<char>, bool) {
    match kind {
        Comb::Merge => if j < fan {
            ("i"@ + dec(j), true)
        } else {
            ("o"@, false)
        },
        Comb::Split => if j == 0 {
            ("i"@, true)
        } else {
            ("o"@ + dec((j - 1) as nat), false)
        },
    }
}

/// The port names of a combinator, in the order a graph passes them.
///
/// `@merge(a, b, out)` is the many side first and the one side last; `@split`
/// is the other way round. Both read as "from, to".
pub fn pipe_names(kind: Comb, fan: usize) -> (out: Vec<(String, bool)>)
    requires
        fan < usize::MAX,
    ensures
        out@.len() == fan + 1,
        forall|j: int|
            0 <= j < out@.len() ==> (#[trigger] out@[j]).0@ == comb_pipe(kind, fan as nat, j as nat).0
                && out@[j].1 == comb_pipe(kind, fan as nat, j as nat).1,
{
    let mut out: Vec<(String, bool)> = Vec::new();
    match kind {
        Comb::Merge => {
            let mut k: usize = 0;
            while k < fan
                invariant
                    k <= fan,
                    out@.len() == k,
                    forall|j: int|
                        0 <= j < k ==> (#[trigger] out@[j]).0@ == "i"@ + dec(j as nat) && out@[j].1,
                decreases fan - k,
            {
                out.push((numbered0("i", k), true));
                k = k + 1;
            }
            out.push((String::from_str("o"), false));
        },
        Comb::Split => {
            out.push((String::from_str("i"), true));
            let mut k: usize = 0;
            while k < fan
                invariant
                    k <= fan,
                    out@.len() == k + 1,
                    out@[0].0@ == "i"@ && out@[0].1,
                    forall|j: int|
                        1 <= j <= k ==> (#[trigger] out@[j]).0@ == "o"@ + dec((j - 1) as nat) && !out@[j].1,
                decreases fan - k,
            {
                out.push((numbered0("o", k), false));
                k = k + 1;
            }
        },
    }
    proof {
        assert forall|j: int| 0 <= j < out@.len() implies (#[trigger] out@[j]).0@ == comb_pipe(kind, fan as nat, j as nat).0
            && out@[j].1 == comb_pipe(kind, fan as nat, j as nat).1 by {
        }
    }
    out
}

/// The producer half of one output pipe: two entries and a `wsalt`.
pub struct OutSide {
    pub e0: ValueId,
    pub e1: ValueId,
    pub wsalt_q: ValueId,
    pub widx: ValueId,
    pub full: ValueId,
    pub base: usize,
}

/// Reads the three registers behind an output, from `base` on, and what
/// they say: which entry is next and whether both are taken.
pub fn out_side(low: &mut Lowerer, ix: usize, base: usize) -> (side: OutSide)
    requires
        old(low).inv(),
        old(low).room(9),
        ix < old(low).pipes@.len(),
        base + 3 <= u32::MAX,
    ensures
        final(low).inv(),
        final(low).same_frame(old(low)),
        appended(old(low).vals(), final(low).vals(), 9),
        regs_read_in(final(low).vals(), old(low).vals().len(), base as nat, (base + 3) as nat),
        side.base == base,
        side.e0.0 == old(low).vals().len(),
        side.e1.0 == old(low).vals().len() + 1,
        side.wsalt_q.0 == old(low).vals().len() + 2,
        side.widx.0 == old(low).vals().len() + 5,
        side.full.0 == old(low).vals().len() + 8,
        def_is(final(low).vals()[side.e0.0 as int], side.e0.0 as nat, old(low).pipes@[ix as int].ty, Op::RegRead(base as u32)),
        def_is(final(low).vals()[side.e1.0 as int], side.e1.0 as nat, old(low).pipes@[ix as int].ty, Op::RegRead((base + 1) as u32)),
        def_is(final(low).vals()[side.wsalt_q.0 as int], side.wsalt_q.0 as nat, salt_ty(), Op::RegRead((base + 2) as u32)),
        salt_idx_at(final(low).vals(), old(low).vals().len() + 3, side.wsalt_q),
        index_of_salt(final(low).vals(), side.widx, (base + 2) as nat),
        // `full`: the write salt against the other side's, both bits flipped.
        final(low).vals()[old(low).vals().len() + 6int].op == Op::Port(other_salt_port(old(low).pipes@[ix as int])),
        final(low).vals()[old(low).vals().len() + 7int].op == (Op::Un { op: UnOp::BitNot, arg: ValueId((old(low).vals().len() + 6) as u32) }),
        final(low).vals()[side.full.0 as int].op == (Op::Cmp { op: crate::ir::CmpOp::Eq, lhs: side.wsalt_q,
            rhs: ValueId((old(low).vals().len() + 7) as u32) }),
{
    let ghost n0 = low.vals().len();
    let ty = low.pipes[ix].ty.clone();
    let e0 = low.emit(ty.clone(), Op::RegRead(base as u32));
    proof { lemma_emitted(old(low).vals(), ty, Op::RegRead(base as u32)); }
    let ghost s1 = low.vals();
    let e1 = low.emit(ty.clone(), Op::RegRead((base + 1) as u32));
    proof { lemma_emitted(s1, ty, Op::RegRead((base + 1) as u32)); }
    let ghost s2 = low.vals();
    let wsalt_q = low.emit(salt(), Op::RegRead((base + 2) as u32));
    proof {
        lemma_emitted(s2, salt_ty(), Op::RegRead((base + 2) as u32));
        crate::lowerer::lemma_appended_trans(old(low).vals(), s1, s2, 1, 1);
        crate::lowerer::lemma_appended_trans(old(low).vals(), s2, low.vals(), 2, 1);
    }
    let ghost after_reads = low.vals();
    let n_e0 = suffixed(&low.pipes[ix].name, "_e0");
    low.name_value_safe(e0, n_e0);
    let n_e1 = suffixed(&low.pipes[ix].name, "_e1");
    low.name_value_safe(e1, n_e1);
    let n_w = suffixed(&low.pipes[ix].name, "_wsalt_q");
    low.name_value_safe(wsalt_q, n_w);
    let n_widx = suffixed(&low.pipes[ix].name, "_widx");
    let ghost s3 = low.vals();
    let widx = low.salt_idx(wsalt_q, n_widx);
    let ghost s4 = low.vals();
    let full = low.pipe_full(ix, wsalt_q);
    proof {
        assert(s3 == after_reads);
        crate::lowerer::lemma_appended_trans(old(low).vals(), s3, s4, 3, 3);
        crate::lowerer::lemma_appended_trans(old(low).vals(), s4, low.vals(), 6, 3);
        assert forall|i: int| n0 <= i < low.vals().len() implies (#[trigger] low.vals()[i]).op matches Op::RegRead(r)
            ==> base <= r && r < base + 3 by {
            if i < n0 + 3 {
                assert(low.vals()[i] == after_reads[i]);
            }
        }
    }
    OutSide { e0, e1, wsalt_q, widx, full, base }
}

/// One register a builder reserved: its slot, name, type and next value.
pub type RegSlot = (usize, String, Ty, ValueId);

/// Pushes `item` into an output when `push` holds, and advances its salt.
///
/// Three registers: entry 0 and entry 1, each loaded when the push lands on
/// it, and the `wsalt`, which steps on every push. The data port carries both
/// entries and the `wsalt` port the register itself.
pub fn push_out(
    low: &mut Lowerer,
    ix: usize,
    side: &OutSide,
    item: ValueId,
    push: ValueId,
    regs: &mut Vec<RegSlot>,
    drivers: &mut Vec<(PortId, ValueId)>,
)
    requires
        old(low).inv(),
        old(low).room(11),
        ix < old(low).pipes@.len(),
        vid_ok(side.e0, old(low).vals().len()),
        vid_ok(side.e1, old(low).vals().len()),
        vid_ok(side.wsalt_q, old(low).vals().len()),
        vid_ok(side.widx, old(low).vals().len()),
        vid_ok(item, old(low).vals().len()),
        vid_ok(push, old(low).vals().len()),
        side.base + 3 <= usize::MAX,
        reads_reg(old(low).vals(), side.e0, side.base as nat),
        reads_reg(old(low).vals(), side.e1, (side.base + 1) as nat),
    ensures
        final(low).inv(),
        final(low).adds(old(low), 11),
        final(regs)@.len() == old(regs)@.len() + 3,
        final(regs)@.subrange(0, old(regs)@.len() as int) == old(regs)@,
        reg_slot_is(final(regs)@[old(regs)@.len() as int], side.base as nat, old(low).pipes@[ix as int].name@ + "_e0"@,
            old(low).pipes@[ix as int].ty, final(low).vals().len()),
        reg_slot_is(final(regs)@[old(regs)@.len() + 1 as int], (side.base + 1) as nat, old(low).pipes@[ix as int].name@ + "_e1"@,
            old(low).pipes@[ix as int].ty, final(low).vals().len()),
        reg_slot_is(final(regs)@[old(regs)@.len() + 2 as int], (side.base + 2) as nat, old(low).pipes@[ix as int].name@ + "_wsalt_q"@,
            salt_ty(), final(low).vals().len()),
        final(drivers)@.len() == old(drivers)@.len() + 2,
        final(drivers)@.subrange(0, old(drivers)@.len() as int) == old(drivers)@,
        final(drivers)@[old(drivers)@.len() as int].0 == old(low).pipes@[ix as int].data_port,
        vid_ok(final(drivers)@[old(drivers)@.len() as int].1, final(low).vals().len()),
        final(drivers)@[old(drivers)@.len() + 1 as int] == (old(low).pipes@[ix as int].wsalt_port, side.wsalt_q),
        // The write salt steps on a push and holds otherwise.
        (final(regs)@[old(regs)@.len() + 2 as int].3.0 as int) < final(low).vals().len(),
        final(low).vals()[final(regs)@[old(regs)@.len() + 2 as int].3.0 as int].op matches Op::Mux { cond, else_val, .. }
            && cond == push && else_val == side.wsalt_q,
        // The data port carries both entries; each loads `item` on a push the
        // write index points at it.
        pair_at(final(low).vals(), final(drivers)@[old(drivers)@.len() as int].1, side.base as nat),
        forall|from: nat| from <= old(low).vals().len() ==> #[trigger] loads(final(low).vals(), from,
            final(regs)@[old(regs)@.len() as int].3, side.base as nat, item, push, side.widx, false),
        forall|from: nat| from <= old(low).vals().len() ==> #[trigger] loads(final(low).vals(), from,
            final(regs)@[old(regs)@.len() + 1 as int].3, (side.base + 1) as nat, item, push, side.widx, true),
{
    let ghost n0 = low.vals().len();
    let ty = low.pipes[ix].ty.clone();
    let ghost s0 = low.vals();
    let not_widx = low.emit(bool_type(), Op::Un { op: UnOp::LogNot, arg: side.widx });
    proof { lemma_emitted(s0, bool_ty(), Op::Un { op: UnOp::LogNot, arg: side.widx }); }
    let ghost s1 = low.vals();
    let to_e0 = low.emit(bool_type(), Op::Bin { op: BinOp::And, lhs: push, rhs: not_widx });
    proof { lemma_emitted(s1, bool_ty(), Op::Bin { op: BinOp::And, lhs: push, rhs: not_widx }); }
    let ghost s2 = low.vals();
    let to_e1 = low.emit(bool_type(), Op::Bin { op: BinOp::And, lhs: push, rhs: side.widx });
    proof { lemma_emitted(s2, bool_ty(), Op::Bin { op: BinOp::And, lhs: push, rhs: side.widx }); }
    let ghost s3 = low.vals();
    let e0_next = low.emit(ty.clone(), Op::Mux { cond: to_e0, then_val: item, else_val: side.e0 });
    proof { lemma_emitted(s3, ty, Op::Mux { cond: to_e0, then_val: item, else_val: side.e0 }); }
    let ghost s4 = low.vals();
    let e1_next = low.emit(ty.clone(), Op::Mux { cond: to_e1, then_val: item, else_val: side.e1 });
    proof { lemma_emitted(s4, ty, Op::Mux { cond: to_e1, then_val: item, else_val: side.e1 }); }
    let ghost s5 = low.vals();
    let salt_next = low.salt_next(side.wsalt_q, side.widx, push);
    let ghost s6 = low.vals();

    regs.push((side.base, suffixed(&low.pipes[ix].name, "_e0"), ty.clone(), e0_next));
    regs.push((side.base + 1, suffixed(&low.pipes[ix].name, "_e1"), ty, e1_next));
    regs.push((side.base + 2, suffixed(&low.pipes[ix].name, "_wsalt_q"), salt(), salt_next));

    let pair_ty = low.pipes[ix].ty.clone();
    let pair = low.pack_entries(side.e0, side.e1, &pair_ty);
    drivers.push((low.pipes[ix].data_port, pair));
    drivers.push((low.pipes[ix].wsalt_port, side.wsalt_q));
    proof {
        lemma_grows_chain5(s0, s1, s2, s3, s4, s5);
        lemma_grows_appended(s5, s6, 5);
        lemma_grows_trans(s0, s5, s6);
        lemma_grows_appended(s6, low.vals(), 1);
        lemma_grows_trans(s0, s6, low.vals());
        assert(regs@.subrange(0, old(regs)@.len() as int) =~= old(regs)@);
        assert(drivers@.subrange(0, old(drivers)@.len() as int) =~= old(drivers)@);
        let fin = low.vals();
        lemma_appended_grows(s5, s6, 5);
        lemma_appended_grows(s6, fin, 1);
        lemma_grows_tr(s5, s6, fin);
        lemma_grows_tr(s4, s5, fin);
        lemma_grows_tr(s3, s4, fin);
        lemma_grows_tr(s2, s3, fin);
        lemma_grows_tr(s1, s2, fin);
        lemma_grows_tr(s0, s1, fin);
        assert(fin[side.e0.0 as int].op == s0[side.e0.0 as int].op);
        assert(fin[side.e1.0 as int].op == s0[side.e1.0 as int].op);
        assert(fin[e0_next.0 as int].op == s4[e0_next.0 as int].op);
        assert(fin[e1_next.0 as int].op == s5[e1_next.0 as int].op);
        assert(pair_at(fin, pair, side.base as nat));
        assert forall|from: nat| from <= s0.len() implies #[trigger] loads(fin, from, e0_next, side.base as nat, item, push, side.widx, false) by {
            assert forall|leaf: spec_fn(ValueId) -> int| #[trigger] leaves_fit(fin, from, leaf) implies
                (computed(fin, from, leaf, to_e0) != 0 <==> computed(fin, from, leaf, push) != 0
                    && (computed(fin, from, leaf, side.widx) != 0) == false) by {
                lemma_leaves_fit_back(s1, fin, from, leaf);
                lemma_and_emitted(s1, from, leaf, push, not_widx);
                lemma_computed_grows(s2, fin, from, leaf, to_e0);
                lemma_computed_grows(s1, fin, from, leaf, push);
                lemma_computed_grows(s0, s1, from, leaf, side.widx);
                lemma_computed_grows(s0, fin, from, leaf, side.widx);
            }
        }
        assert forall|from: nat| from <= s0.len() implies #[trigger] loads(fin, from, e1_next, (side.base + 1) as nat, item, push, side.widx, true) by {
            assert forall|leaf: spec_fn(ValueId) -> int| #[trigger] leaves_fit(fin, from, leaf) implies
                (computed(fin, from, leaf, to_e1) != 0 <==> computed(fin, from, leaf, push) != 0
                    && (computed(fin, from, leaf, side.widx) != 0) == true) by {
                lemma_leaves_fit_back(s2, fin, from, leaf);
                lemma_and_emitted(s2, from, leaf, push, side.widx);
                lemma_computed_grows(s3, fin, from, leaf, to_e1);
                lemma_computed_grows(s2, fin, from, leaf, push);
                lemma_computed_grows(s2, fin, from, leaf, side.widx);
            }
        }
    }
}

/// One reserved register: at `slot`, called `name`, of type `ty`, loaded from
/// a value that exists.
pub open spec fn reg_slot_is(r: RegSlot, slot: nat, name: Seq<char>, ty: Ty, n: nat) -> bool {
    r.0 == slot && r.1@ == name && r.2 == ty && vid_ok(r.3, n)
}

/// Growing, without register reads, step by step.
pub open spec fn step(a: Seq<ValueDef>, b: Seq<ValueDef>) -> bool {
    grows(a, b) && no_reg_reads(b, a.len()) && b.len() <= a.len() + 1
}

pub proof fn lemma_grows_trans(a: Seq<ValueDef>, b: Seq<ValueDef>, c: Seq<ValueDef>)
    requires
        grows(a, b),
        no_reg_reads(b, a.len()),
        grows(b, c),
        no_reg_reads(c, b.len()),
    ensures
        grows(a, c),
        no_reg_reads(c, a.len()),
{
    assert forall|i: int| a.len() <= i < c.len() implies !(#[trigger] c[i].op is RegRead) by {
        if i < b.len() {
            assert(c[i].op == b[i].op);
        }
    }
    assert forall|i: int| 0 <= i < a.len() implies #[trigger] c[i].id == a[i].id && c[i].ty == a[i].ty && c[i].op == a[i].op by {
        assert(b[i].id == a[i].id);
    }
}

pub proof fn lemma_grows_appended(a: Seq<ValueDef>, b: Seq<ValueDef>, k: nat)
    requires
        appended(a, b, k),
        forall|i: int| a.len() <= i < b.len() ==> !(#[trigger] b[i].op is RegRead),
    ensures
        grows(a, b),
        no_reg_reads(b, a.len()),
{
    assert forall|i: int| 0 <= i < a.len() implies #[trigger] b[i].id == a[i].id && b[i].ty == a[i].ty && b[i].op == a[i].op by {
        assert(b.subrange(0, a.len() as int)[i] == b[i]);
    }
}

proof fn lemma_grows_chain5(s0: Seq<ValueDef>, s1: Seq<ValueDef>, s2: Seq<ValueDef>, s3: Seq<ValueDef>, s4: Seq<ValueDef>, s5: Seq<ValueDef>)
    requires
        step(s0, s1),
        step(s1, s2),
        step(s2, s3),
        step(s3, s4),
        step(s4, s5),
    ensures
        step_n(s0, s5, 5),
{
    lemma_grows_trans(s0, s1, s2);
    lemma_grows_trans(s0, s2, s3);
    lemma_grows_trans(s0, s3, s4);
    lemma_grows_trans(s0, s4, s5);
}

/// Growing, without register reads, by at most `k`.
pub open spec fn step_n(a: Seq<ValueDef>, b: Seq<ValueDef>, k: nat) -> bool {
    grows(a, b) && no_reg_reads(b, a.len()) && b.len() <= a.len() + k
}

/// An input pipe's data word is the value on its data port, port `4 + 3 * j`.
pub open spec fn input_data(vals: Seq<ValueDef>, p: crate::lowerer::PipeInfo, j: int) -> bool {
    p.is_input ==> p.data_value is Some && ((p.data_value->0).0 as int) < vals.len()
        && vals[(p.data_value->0).0 as int].op == Op::Port(PortId((4 + 3 * j) as u32))
}

/// Every pipe still has the ports it was declared with.
pub open spec fn ports_kept(a: Seq<crate::lowerer::PipeInfo>, b: Seq<crate::lowerer::PipeInfo>) -> bool {
    &&& a.len() == b.len()
    &&& forall|j: int| 0 <= j < a.len() ==> (#[trigger] a[j]).rsalt_port == b[j].rsalt_port
        && a[j].wsalt_port == b[j].wsalt_port && a[j].data_port == b[j].data_port
}

/// The pipes of a combinator as `declare_comb_pipes` leaves them.
pub open spec fn comb_pipes_ok(low: Lowerer, kind: Comb, fan: nat, ty: Ty) -> bool {
    &&& low.pipes@.len() == fan + 1
    &&& forall|j: int|
        0 <= j < low.pipes@.len() ==> (#[trigger] low.pipes@[j]).is_input == comb_pipe(kind, fan, j as nat).1
            && low.pipes@[j].ty == ty && low.pipes@[j].name@ == comb_pipe(kind, fan, j as nat).0
            && input_data(low.vals(), low.pipes@[j], j) && low.pipes@[j].data_port.0 == 4 + 3 * j
            && low.pipes@[j].wsalt_port.0 == 2 + 3 * j && low.pipes@[j].rsalt_port.0 == 3 + 3 * j
}

/// What a builder may rely on: a well-formed lowerer with no memories, whose
/// register reads all fall in the `slots` it reserved.
pub open spec fn builder_ok(low: Lowerer, slots: nat) -> bool {
    &&& low.inv()
    &&& low.mems@.len() == 0
    &&& regs_read_below(low.vals(), slots)
}

/// Growing without register reads keeps every register read in range.
pub proof fn lemma_regs_read_below_grows(a: Seq<ValueDef>, b: Seq<ValueDef>, slots: nat)
    requires
        regs_read_below(a, slots),
        grows(a, b),
        no_reg_reads(b, a.len()),
    ensures
        regs_read_below(b, slots),
{
    assert forall|i: int| 0 <= i < b.len() implies (#[trigger] b[i]).op matches Op::RegRead(r) ==> (r as nat) < slots by {
        if i < a.len() {
            assert(b[i].op == a[i].op);
        }
    }
}

proof fn lemma_pipe_ports_prefix(a: Seq<crate::ir::Port>, b: Seq<crate::ir::Port>, p0: nat, name: Seq<char>, ty: Ty, is_input: bool)
    requires
        crate::lowerer::pipe_ports(a, p0, name, ty, is_input),
        p0 + 3 <= a.len(),
        b.len() >= a.len(),
        b.subrange(0, a.len() as int) == a,
    ensures
        crate::lowerer::pipe_ports(b, p0, name, ty, is_input),
{
    assert(b[p0 as int] == b.subrange(0, a.len() as int)[p0 as int]);
    assert(b[p0 + 1 as int] == b.subrange(0, a.len() as int)[p0 + 1 as int]);
    assert(b[p0 + 2 as int] == b.subrange(0, a.len() as int)[p0 + 2 as int]);
}

/// Declares a combinator's clock and pipes, in the order `pipe_names` gives.
pub fn declare_comb_pipes(kind: Comb, fan: usize, ty: &Ty) -> (low: Lowerer)
    requires
        split_budget(fan as nat) <= u32::MAX,
        2 * width(*ty) <= u32::MAX,
    ensures
        low.inv(),
        low.mems@.len() == 0,
        no_reg_reads(low.vals(), 0),
        low.vals().len() <= fan + 3,
        low.ports_view().len() == 2 + 3 * (fan + 1),
        comb_pipes_ok(low, kind, fan as nat, *ty),
        low.ports_view()[0].name@ == "clk"@,
        low.ports_view()[1].name@ == "rst_n"@,
        forall|j: int| 0 <= j < fan + 1 ==> crate::lowerer::pipe_ports(low.ports_view(), (2 + 3 * j) as nat,
            #[trigger] comb_pipe(kind, fan as nat, j as nat).0, *ty, comb_pipe(kind, fan as nat, j as nat).1),
{
    let mut low = Lowerer::new();
    let mut env = crate::env::Env::new();
    low.declare_clock(&mut env);
    let names = pipe_names(kind, fan);
    let mut i: usize = 0;
    while i < names.len()
        invariant
            names@.len() == fan + 1,
            split_budget(fan as nat) <= u32::MAX,
            2 * width(*ty) <= u32::MAX,
            forall|j: int|
                0 <= j < names@.len() ==> (#[trigger] names@[j]).0@ == comb_pipe(kind, fan as nat, j as nat).0
                    && names@[j].1 == comb_pipe(kind, fan as nat, j as nat).1,
            i <= names@.len(),
            low.inv(),
            low.mems@.len() == 0,
            no_reg_reads(low.vals(), 0),
            low.vals().len() <= 2 + i,
            low.ports_view().len() == 2 + 3 * i,
            low.ports_view()[0].name@ == "clk"@,
            low.ports_view()[1].name@ == "rst_n"@,
            forall|j: int| 0 <= j < i ==> crate::lowerer::pipe_ports(low.ports_view(), (2 + 3 * j) as nat,
                #[trigger] comb_pipe(kind, fan as nat, j as nat).0, *ty, comb_pipe(kind, fan as nat, j as nat).1),
            low.pipes@.len() == i,
            forall|j: int|
                0 <= j < i ==> (#[trigger] low.pipes@[j]).is_input == comb_pipe(kind, fan as nat, j as nat).1
                    && low.pipes@[j].ty == *ty && low.pipes@[j].name@ == comb_pipe(kind, fan as nat, j as nat).0
                    && input_data(low.vals(), low.pipes@[j], j) && low.pipes@[j].data_port.0 == 4 + 3 * j
                    && low.pipes@[j].wsalt_port.0 == 2 + 3 * j && low.pipes@[j].rsalt_port.0 == 3 + 3 * j,
        decreases names@.len() - i,
    {
        let name = names[i].0.clone();
        let is_input = names[i].1;
        let ghost before = low;
        low.declare_pipe(name, ty.clone(), is_input);
        proof {
            assert forall|j: int| 0 <= j < low.vals().len() implies !(#[trigger] low.vals()[j].op is RegRead) by {
                if j < before.vals().len() {
                    assert(low.vals().subrange(0, before.vals().len() as int)[j] == low.vals()[j]);
                }
            }
            assert forall|j: int| 0 <= j < i + 1 implies (#[trigger] low.pipes@[j]).is_input == comb_pipe(kind, fan as nat, j as nat).1
                && low.pipes@[j].ty == *ty && low.pipes@[j].name@ == comb_pipe(kind, fan as nat, j as nat).0
                && input_data(low.vals(), low.pipes@[j], j) && low.pipes@[j].data_port.0 == 4 + 3 * j
                && low.pipes@[j].wsalt_port.0 == 2 + 3 * j && low.pipes@[j].rsalt_port.0 == 3 + 3 * j by {
                if j < i {
                    assert(low.pipes@.subrange(0, i as int)[j] == low.pipes@[j]);
                    if low.pipes@[j].is_input {
                        let x = (low.pipes@[j].data_value->0).0 as int;
                        assert(low.vals().subrange(0, before.vals().len() as int)[x] == low.vals()[x]);
                    }
                }
            }
            assert forall|j: int| 0 <= j < i + 1 implies crate::lowerer::pipe_ports(low.ports_view(), (2 + 3 * j) as nat,
                #[trigger] comb_pipe(kind, fan as nat, j as nat).0, *ty, comb_pipe(kind, fan as nat, j as nat).1) by {
                if j < i {
                    lemma_pipe_ports_prefix(before.ports_view(), low.ports_view(), (2 + 3 * j) as nat,
                        comb_pipe(kind, fan as nat, j as nat).0, *ty, comb_pipe(kind, fan as nat, j as nat).1);
                }
            }
            assert(low.ports_view().subrange(0, before.ports_view().len() as int)[0] == low.ports_view()[0]);
            assert(low.ports_view().subrange(0, before.ports_view().len() as int)[1] == low.ports_view()[1]);
        }
        i = i + 1;
    }
    low
}

/// Registers in slot order: entry `j` is slot `j`, loaded from a value that
/// exists.
pub open spec fn slots_in_order(regs: Seq<RegSlot>, n: nat, nv: nat) -> bool {
    &&& regs.len() == n
    &&& forall|j: int| 0 <= j < regs.len() ==> (#[trigger] regs[j]).0 == j && vid_ok(regs[j].3, nv)
}

/// Every driver names a port and a value that exist.
pub open spec fn drivers_ok(d: Seq<(PortId, ValueId)>, np: nat, nv: nat) -> bool {
    forall|j: int| 0 <= j < d.len() ==> ((#[trigger] d[j]).0.0 as nat) < np && vid_ok(d[j].1, nv)
}

proof fn lemma_drivers_ok_grow(d: Seq<(PortId, ValueId)>, np: nat, nv: nat, nv2: nat)
    requires
        drivers_ok(d, np, nv),
        nv <= nv2,
    ensures
        drivers_ok(d, np, nv2),
{
    assert forall|j: int| 0 <= j < d.len() implies ((#[trigger] d[j]).0.0 as nat) < np && vid_ok(d[j].1, nv2) by {
        assert(vid_ok(d[j].1, nv));
    }
}

/// A side's values all exist.
pub open spec fn side_ok(side: OutSide, nv: nat) -> bool {
    vid_ok(side.e0, nv) && vid_ok(side.e1, nv) && vid_ok(side.wsalt_q, nv) && vid_ok(side.widx, nv)
        && vid_ok(side.full, nv)
}

/// An input's offer over `vals`: `has` is true when its pipe is not empty --
/// the producer's write salt on port `wport` differs from the read salt
/// register `slot`.
pub open spec fn offer_at(vals: Seq<ValueDef>, has: ValueId, slot: nat, wport: nat) -> bool {
    &&& (has.0 as int) < vals.len()
    &&& vals[has.0 as int].op matches Op::Un { op: UnOp::LogNot, arg: empty }
    &&& (empty.0 as int) < vals.len()
    &&& vals[empty.0 as int].op matches Op::Cmp { op: CmpOp::Eq, lhs: w, rhs: q }
    &&& (w.0 as int) < vals.len() && vals[w.0 as int].op == Op::Port(PortId(wport as u32))
    &&& (q.0 as int) < vals.len() && vals[q.0 as int].op == Op::RegRead(slot as u32)
}

/// An output's `full` over `vals`: its write salt register `wq`, at `slot`,
/// equals the consumer's read salt on port `rport` with both bits flipped.
pub open spec fn full_at(vals: Seq<ValueDef>, full: ValueId, wq: ValueId, slot: nat, rport: nat) -> bool {
    &&& (full.0 as int) < vals.len()
    &&& vals[full.0 as int].op matches Op::Cmp { op: CmpOp::Eq, lhs, rhs: flipped }
    &&& lhs == wq
    &&& (wq.0 as int) < vals.len() && vals[wq.0 as int].op == Op::RegRead(slot as u32)
    &&& (flipped.0 as int) < vals.len()
    &&& vals[flipped.0 as int].op matches Op::Un { op: UnOp::BitNot, arg: r }
    &&& (r.0 as int) < vals.len() && vals[r.0 as int].op == Op::Port(PortId(rport as u32))
}

/// An output's `room` over `vals`: it is not full.
pub open spec fn room_at(vals: Seq<ValueDef>, room: ValueId, slot: nat, rport: nat) -> bool {
    &&& (room.0 as int) < vals.len()
    &&& vals[room.0 as int].op matches Op::Un { op: UnOp::LogNot, arg: full }
    &&& exists|wq: ValueId| #[trigger] full_at(vals, full, wq, slot, rport)
}

/// Register `slot` steps exactly when `cond` holds: its next value is a mux on
/// `cond` whose other arm keeps the register.
pub open spec fn steps_on(vals: Seq<ValueDef>, next: ValueId, slot: nat, cond: ValueId) -> bool {
    &&& (next.0 as int) < vals.len()
    &&& vals[next.0 as int].op matches Op::Mux { cond: c, else_val: q, .. }
    &&& c == cond
    &&& (q.0 as int) < vals.len() && vals[q.0 as int].op == Op::RegRead(slot as u32)
}

/// Register `slot` steps exactly when `a` and `b` both hold, under every
/// fitting reading of the values before `from`.
pub open spec fn steps_on_both(vals: Seq<ValueDef>, from: nat, next: ValueId, slot: nat, a: ValueId, b: ValueId) -> bool {
    &&& (next.0 as int) < vals.len()
    &&& vals[next.0 as int].op matches Op::Mux { cond: c, else_val: q, .. }
    &&& (c.0 as int) < vals.len()
    &&& (q.0 as int) < vals.len() && vals[q.0 as int].op == Op::RegRead(slot as u32)
    &&& forall|leaf: spec_fn(ValueId) -> int| #[trigger] leaves_fit(vals, from, leaf) ==>
        (computed(vals, from, leaf, c) != 0 <==> computed(vals, from, leaf, a) != 0 && computed(vals, from, leaf, b) != 0)
}

proof fn lemma_offer_grows(a: Seq<ValueDef>, b: Seq<ValueDef>, has: ValueId, slot: nat, wport: nat)
    requires
        grows(a, b),
        offer_at(a, has, slot, wport),
    ensures
        offer_at(b, has, slot, wport),
{
    let empty = a[has.0 as int].op->Un_arg;
    assert(b[has.0 as int].op == a[has.0 as int].op);
    assert(b[empty.0 as int].op == a[empty.0 as int].op);
    let w = a[empty.0 as int].op->Cmp_lhs;
    let q = a[empty.0 as int].op->Cmp_rhs;
    assert(b[w.0 as int].op == a[w.0 as int].op);
    assert(b[q.0 as int].op == a[q.0 as int].op);
}

proof fn lemma_full_grows(a: Seq<ValueDef>, b: Seq<ValueDef>, full: ValueId, wq: ValueId, slot: nat, rport: nat)
    requires
        grows(a, b),
        full_at(a, full, wq, slot, rport),
    ensures
        full_at(b, full, wq, slot, rport),
{
    assert(b[full.0 as int].op == a[full.0 as int].op);
    let flipped = a[full.0 as int].op->Cmp_rhs;
    assert(b[wq.0 as int].op == a[wq.0 as int].op);
    assert(b[flipped.0 as int].op == a[flipped.0 as int].op);
    let r = a[flipped.0 as int].op->Un_arg;
    assert(b[r.0 as int].op == a[r.0 as int].op);
}

proof fn lemma_room_grows(a: Seq<ValueDef>, b: Seq<ValueDef>, room: ValueId, slot: nat, rport: nat)
    requires
        grows(a, b),
        room_at(a, room, slot, rport),
    ensures
        room_at(b, room, slot, rport),
{
    assert(b[room.0 as int].op == a[room.0 as int].op);
    let full = a[room.0 as int].op->Un_arg;
    let wq = choose|wq: ValueId| #[trigger] full_at(a, full, wq, slot, rport);
    lemma_full_grows(a, b, full, wq, slot, rport);
}

proof fn lemma_steps_grows(a: Seq<ValueDef>, b: Seq<ValueDef>, next: ValueId, slot: nat, cond: ValueId)
    requires
        grows(a, b),
        steps_on(a, next, slot, cond),
    ensures
        steps_on(b, next, slot, cond),
{
    assert(b[next.0 as int].op == a[next.0 as int].op);
    let q = a[next.0 as int].op->Mux_else_val;
    assert(b[q.0 as int].op == a[q.0 as int].op);
}

proof fn lemma_steps_both_grows(a: Seq<ValueDef>, b: Seq<ValueDef>, from: nat, next: ValueId, slot: nat, x: ValueId, y: ValueId)
    requires
        grows(a, b),
        from <= a.len(),
        vid_ok(x, a.len()),
        vid_ok(y, a.len()),
        steps_on_both(a, from, next, slot, x, y),
    ensures
        steps_on_both(b, from, next, slot, x, y),
{
    assert(b[next.0 as int].op == a[next.0 as int].op);
    let c = a[next.0 as int].op->Mux_cond;
    let q = a[next.0 as int].op->Mux_else_val;
    assert(b[q.0 as int].op == a[q.0 as int].op);
    assert forall|leaf: spec_fn(ValueId) -> int| #[trigger] leaves_fit(b, from, leaf) implies
        (computed(b, from, leaf, c) != 0 <==> computed(b, from, leaf, x) != 0 && computed(b, from, leaf, y) != 0) by {
        lemma_leaves_fit_back(a, b, from, leaf);
        lemma_computed_grows(a, b, from, leaf, c);
        lemma_computed_grows(a, b, from, leaf, x);
        lemma_computed_grows(a, b, from, leaf, y);
    }
}

/// Value `v` reads register `slot`.
pub open spec fn reads_reg(vals: Seq<ValueDef>, v: ValueId, slot: nat) -> bool {
    (v.0 as int) < vals.len() && vals[v.0 as int].op == Op::RegRead(slot as u32)
}

/// An output's data word over `vals`: its two entry registers, from `slot`
/// on, entry 1 in the high half.
pub open spec fn pair_at(vals: Seq<ValueDef>, v: ValueId, slot: nat) -> bool {
    &&& (v.0 as int) < vals.len()
    &&& vals[v.0 as int].op matches Op::Concat(parts)
    &&& parts@.len() == 2
    &&& reads_reg(vals, parts@[0], slot + 1)
    &&& reads_reg(vals, parts@[1], slot)
}

/// `idx` is the index a salt register `slot` names: the XOR of its two bits.
pub open spec fn index_of_salt(vals: Seq<ValueDef>, idx: ValueId, slot: nat) -> bool {
    let at = idx.0 as int - 2;
    &&& 0 <= at && (idx.0 as int) < vals.len()
    &&& vals[at].op matches Op::Slice { arg: q, .. }
    &&& reads_reg(vals, q, slot)
    &&& salt_idx_at(vals, at as nat, q)
}

/// `item` is the entry of an input's data word, on port `dport`, that the
/// index of its read salt register `slot` picks.
pub open spec fn entry_of(vals: Seq<ValueDef>, item: ValueId, ty: Ty, dport: nat, slot: nat) -> bool {
    let at = item.0 as int - 5;
    &&& 0 <= at && (item.0 as int) < vals.len()
    &&& index_of_salt(vals, ValueId((at + 2) as u32), slot)
    &&& vals[at + 3].op matches Op::Slice { arg: d, .. }
    &&& (d.0 as int) < vals.len() && vals[d.0 as int].op == Op::Port(PortId(dport as u32))
    &&& entry_at(vals, (at + 3) as nat, d, ValueId((at + 2) as u32), ty)
}

/// Entry register `slot` loads `item` exactly when `go` holds and the write
/// index `idx` points at it (`hi` for entry 1), under every fitting reading
/// of the values before `from`; otherwise it keeps its value.
pub open spec fn loads(vals: Seq<ValueDef>, from: nat, next: ValueId, slot: nat, item: ValueId, go: ValueId, idx: ValueId, hi: bool) -> bool {
    &&& (next.0 as int) < vals.len()
    &&& vals[next.0 as int].op matches Op::Mux { cond: c, then_val: t, else_val: q }
    &&& t == item
    &&& reads_reg(vals, q, slot)
    &&& (c.0 as int) < vals.len()
    &&& forall|leaf: spec_fn(ValueId) -> int| #[trigger] leaves_fit(vals, from, leaf) ==>
        (computed(vals, from, leaf, c) != 0 <==> computed(vals, from, leaf, go) != 0 && (computed(vals, from, leaf, idx) != 0) == hi)
}

/// Output pipe `j`, whose three registers start at `base`: its data port is
/// driven by the two entries and its write-salt port by its write salt
/// (drivers `at` and `at + 1`); each entry loads `item` on a push (`go`)
/// that the write index `idx` points at it.
pub open spec fn output_at(vals: Seq<ValueDef>, from: nat, drivers: Seq<(PortId, ValueId)>, nexts: Seq<ValueId>, at: int, j: nat,
    base: nat, item: ValueId, go: ValueId, idx: ValueId) -> bool {
    &&& 0 <= at && at + 1 < drivers.len() && base + 2 < nexts.len()
    &&& drivers[at].0 == PortId((4 + 3 * j) as u32) && pair_at(vals, drivers[at].1, base)
    &&& drivers[at + 1].0 == PortId((2 + 3 * j) as u32) && reads_reg(vals, drivers[at + 1].1, base + 2)
    &&& index_of_salt(vals, idx, base + 2)
    &&& loads(vals, from, nexts[base as int], base, item, go, idx, false)
    &&& loads(vals, from, nexts[base + 1int], base + 1, item, go, idx, true)
}

/// A merge's forwarded item: `items[k]` for the last `k` below `n` whose
/// grant holds, else `items[0]`.
pub open spec fn picked(vals: Seq<ValueDef>, v: ValueId, grants: Seq<ValueId>, items: Seq<ValueId>, n: nat) -> bool
    decreases n,
{
    if n <= 1 {
        v == items[0]
    } else {
        &&& (v.0 as int) < vals.len()
        &&& vals[v.0 as int].op matches Op::Mux { cond, then_val, else_val }
        &&& cond == grants[n - 1]
        &&& then_val == items[n - 1]
        &&& picked(vals, else_val, grants, items, (n - 1) as nat)
    }
}

proof fn lemma_pair_grows(a: Seq<ValueDef>, b: Seq<ValueDef>, v: ValueId, slot: nat)
    requires
        grows(a, b),
        pair_at(a, v, slot),
    ensures
        pair_at(b, v, slot),
{
    assert(b[v.0 as int].op == a[v.0 as int].op);
    let parts = a[v.0 as int].op->Concat_0;
    assert(b[parts@[0].0 as int].op == a[parts@[0].0 as int].op);
    assert(b[parts@[1].0 as int].op == a[parts@[1].0 as int].op);
}

pub proof fn lemma_index_grows(a: Seq<ValueDef>, b: Seq<ValueDef>, idx: ValueId, slot: nat)
    requires
        grows(a, b),
        index_of_salt(a, idx, slot),
    ensures
        index_of_salt(b, idx, slot),
{
    let at = idx.0 as int - 2;
    assert(b[at].op == a[at].op && b[at].id == a[at].id && b[at].ty == a[at].ty);
    assert(b[at + 1].op == a[at + 1].op && b[at + 1].id == a[at + 1].id && b[at + 1].ty == a[at + 1].ty);
    assert(b[at + 2].op == a[at + 2].op && b[at + 2].id == a[at + 2].id && b[at + 2].ty == a[at + 2].ty);
    let q = a[at].op->Slice_arg;
    assert(b[q.0 as int].op == a[q.0 as int].op);
}

pub proof fn lemma_entry_grows(a: Seq<ValueDef>, b: Seq<ValueDef>, item: ValueId, ty: Ty, dport: nat, slot: nat)
    requires
        grows(a, b),
        entry_of(a, item, ty, dport, slot),
    ensures
        entry_of(b, item, ty, dport, slot),
{
    let at = item.0 as int - 5;
    lemma_index_grows(a, b, ValueId((at + 2) as u32), slot);
    assert(b[at + 3].op == a[at + 3].op && b[at + 3].id == a[at + 3].id && b[at + 3].ty == a[at + 3].ty);
    assert(b[at + 4].op == a[at + 4].op && b[at + 4].id == a[at + 4].id && b[at + 4].ty == a[at + 4].ty);
    assert(b[at + 5].op == a[at + 5].op && b[at + 5].id == a[at + 5].id && b[at + 5].ty == a[at + 5].ty);
    let d = a[at + 3].op->Slice_arg;
    assert(b[d.0 as int].op == a[d.0 as int].op);
}

proof fn lemma_loads_grows(a: Seq<ValueDef>, b: Seq<ValueDef>, from: nat, next: ValueId, slot: nat, item: ValueId, go: ValueId, idx: ValueId, hi: bool)
    requires
        grows(a, b),
        from <= a.len(),
        vid_ok(go, a.len()),
        vid_ok(idx, a.len()),
        loads(a, from, next, slot, item, go, idx, hi),
    ensures
        loads(b, from, next, slot, item, go, idx, hi),
{
    assert(b[next.0 as int].op == a[next.0 as int].op);
    let c = a[next.0 as int].op->Mux_cond;
    let q = a[next.0 as int].op->Mux_else_val;
    assert(b[q.0 as int].op == a[q.0 as int].op);
    assert forall|leaf: spec_fn(ValueId) -> int| #[trigger] leaves_fit(b, from, leaf) implies
        (computed(b, from, leaf, c) != 0 <==> computed(b, from, leaf, go) != 0 && (computed(b, from, leaf, idx) != 0) == hi) by {
        lemma_leaves_fit_back(a, b, from, leaf);
        lemma_computed_grows(a, b, from, leaf, c);
        lemma_computed_grows(a, b, from, leaf, go);
        lemma_computed_grows(a, b, from, leaf, idx);
    }
}

proof fn lemma_output_grows(a: Seq<ValueDef>, b: Seq<ValueDef>, from: nat, drivers: Seq<(PortId, ValueId)>, nexts: Seq<ValueId>,
    at: int, j: nat, base: nat, item: ValueId, go: ValueId, idx: ValueId)
    requires
        grows(a, b),
        from <= a.len(),
        vid_ok(go, a.len()),
        output_at(a, from, drivers, nexts, at, j, base, item, go, idx),
    ensures
        output_at(b, from, drivers, nexts, at, j, base, item, go, idx),
{
    lemma_pair_grows(a, b, drivers[at].1, base);
    assert(b[drivers[at + 1].1.0 as int].op == a[drivers[at + 1].1.0 as int].op);
    lemma_index_grows(a, b, idx, base + 2);
    lemma_loads_grows(a, b, from, nexts[base as int], base, item, go, idx, false);
    lemma_loads_grows(a, b, from, nexts[base + 1int], base + 1, item, go, idx, true);
}

proof fn lemma_picked_grows(a: Seq<ValueDef>, b: Seq<ValueDef>, v: ValueId, grants: Seq<ValueId>, items: Seq<ValueId>, n: nat)
    requires
        grows(a, b),
        picked(a, v, grants, items, n),
    ensures
        picked(b, v, grants, items, n),
    decreases n,
{
    if n > 1 {
        assert(b[v.0 as int].op == a[v.0 as int].op);
        lemma_picked_grows(a, b, a[v.0 as int].op->Mux_else_val, grants, items, (n - 1) as nat);
    }
}

/// The registers behind an output side, from `base` on: its two entries and
/// the index its write salt names.
pub open spec fn side_regs(vals: Seq<ValueDef>, side: OutSide, base: nat) -> bool {
    &&& reads_reg(vals, side.e0, base)
    &&& reads_reg(vals, side.e1, base + 1)
    &&& reads_reg(vals, side.wsalt_q, base + 2)
    &&& index_of_salt(vals, side.widx, base + 2)
}

proof fn lemma_side_regs_grows(a: Seq<ValueDef>, b: Seq<ValueDef>, side: OutSide, base: nat)
    requires
        grows(a, b),
        side_regs(a, side, base),
    ensures
        side_regs(b, side, base),
{
    assert(b[side.e0.0 as int].op == a[side.e0.0 as int].op);
    assert(b[side.e1.0 as int].op == a[side.e1.0 as int].op);
    assert(b[side.wsalt_q.0 as int].op == a[side.wsalt_q.0 as int].op);
    lemma_index_grows(a, b, side.widx, base + 2);
}

/// An output's statement carries over to grown values and to longer driver
/// and register lists that agree where it looks.
proof fn lemma_output_move(a: Seq<ValueDef>, b: Seq<ValueDef>, from: nat, d1: Seq<(PortId, ValueId)>, d2: Seq<(PortId, ValueId)>,
    n1: Seq<ValueId>, n2: Seq<ValueId>, at: int, j: nat, base: nat, item: ValueId, go: ValueId, idx: ValueId)
    requires
        grows(a, b),
        from <= a.len(),
        vid_ok(go, a.len()),
        output_at(a, from, d1, n1, at, j, base, item, go, idx),
        d2.len() >= d1.len(),
        n2.len() >= n1.len(),
        d2[at] == d1[at],
        d2[at + 1] == d1[at + 1],
        n2[base as int] == n1[base as int],
        n2[base + 1int] == n1[base + 1int],
    ensures
        output_at(b, from, d2, n2, at, j, base, item, go, idx),
{
    lemma_output_grows(a, b, from, d1, n1, at, j, base, item, go, idx);
}

/// What a `@split` does each cycle, over `vals` and its registers' next
/// values `nexts`: it takes from the input exactly when the input has an
/// item and every output has room, and then the input's read salt and every
/// output's write salt step together. Each output's data port carries its two
/// entries, which load the input's item on a take the write index points at;
/// each output's write-salt port carries its write salt, the input's
/// read-salt port its read salt, and nothing else is driven.
pub open spec fn split_parts(vals: Seq<ValueDef>, nexts: Seq<ValueId>, drivers: Seq<(PortId, ValueId)>, fan: nat, ty: Ty,
    from: nat, has: ValueId, rooms: Seq<ValueId>, take: ValueId, item: ValueId, idxs: Seq<ValueId>) -> bool {
    &&& from <= vals.len()
    &&& nexts.len() == 1 + 3 * fan
    &&& rooms.len() == fan
    &&& offer_at(vals, has, 0, 2)
    &&& forall|k: int| 0 <= k < fan ==> room_at(vals, #[trigger] rooms[k], (3 + 3 * k) as nat, (6 + 3 * k) as nat)
    &&& (take.0 as int) < vals.len()
    &&& forall|leaf: spec_fn(ValueId) -> int| #[trigger] leaves_fit(vals, from, leaf) ==>
        (computed(vals, from, leaf, take) != 0 <==> computed(vals, from, leaf, has) != 0
            && forall|k: int| 0 <= k < fan ==> #[trigger] computed(vals, from, leaf, rooms[k]) != 0)
    &&& steps_on(vals, nexts[0], 0, take)
    &&& forall|j: int| 3 <= j < nexts.len() && j % 3 == 0 ==> steps_on(vals, #[trigger] nexts[j], j as nat, take)
    &&& entry_of(vals, item, ty, 4, 0)
    &&& drivers.len() == 2 * fan + 1 && idxs.len() == fan
    &&& forall|k: int| 0 <= k < fan ==> output_at(vals, from, drivers, nexts, 2 * k, (k + 1) as nat, (1 + 3 * k) as nat,
        item, take, #[trigger] idxs[k])
    &&& drivers[2 * fan as int].0 == PortId(3) && reads_reg(vals, drivers[2 * fan as int].1, 0)
}

/// A `@split`'s logic, as `split_parts` states it for some of its values.
pub open spec fn split_core_in(vals: Seq<ValueDef>, nexts: Seq<ValueId>, drivers: Seq<(PortId, ValueId)>, fan: nat, ty: Ty) -> bool {
    exists|from: nat, has: ValueId, rooms: Seq<ValueId>, take: ValueId, item: ValueId, idxs: Seq<ValueId>|
        #[trigger] split_parts(vals, nexts, drivers, fan, ty, from, has, rooms, take, item, idxs)
}

/// The next value of each register.
pub open spec fn reg_nexts(regs: Seq<Reg>) -> Seq<ValueId> {
    regs.map_values(|r: Reg| r.next)
}

/// The next value of each reserved register.
pub open spec fn slot_nexts(regs: Seq<RegSlot>) -> Seq<ValueId> {
    regs.map_values(|r: RegSlot| r.3)
}

proof fn lemma_grows_tr(a: Seq<ValueDef>, b: Seq<ValueDef>, c: Seq<ValueDef>)
    requires
        grows(a, b),
        grows(b, c),
    ensures
        grows(a, c),
{
    assert forall|i: int| 0 <= i < a.len() implies #[trigger] c[i].id == a[i].id && c[i].ty == a[i].ty && c[i].op == a[i].op by {
        assert(b[i].op == a[i].op);
    }
}

proof fn lemma_appended_grows(a: Seq<ValueDef>, b: Seq<ValueDef>, k: nat)
    requires
        appended(a, b, k),
    ensures
        grows(a, b),
{
    assert forall|i: int| 0 <= i < a.len() implies #[trigger] b[i].id == a[i].id && b[i].ty == a[i].ty && b[i].op == a[i].op by {
        assert(b.subrange(0, a.len() as int)[i] == b[i]);
    }
}

/// The body of a `@split`: every sink, or none.
///
/// ANDing the sinks' READYS is what this avoids -- that would put each
/// consumer's logic in every other one's timing path. Each has its own slot,
/// and the input waits for the slowest of them.
#[verifier::spinoff_prover]
#[verifier::rlimit(60)]
fn build_split(low: &mut Lowerer, fan: usize, ty: &Ty) -> (r: (Vec<RegSlot>, Vec<(PortId, ValueId)>))
    requires
        builder_ok(*old(low), (1 + 3 * fan) as nat),
        comb_pipes_ok(*old(low), Comb::Split, fan as nat, *ty),
        1 <= width(*ty),
        2 * width(*ty) <= u32::MAX,
        split_budget(fan as nat) <= u32::MAX,
        old(low).vals().len() <= fan + 3,
    ensures
        builder_ok(*final(low), (1 + 3 * fan) as nat),
        final(low).ports_view() == old(low).ports_view(),
        slots_in_order(r.0@, (1 + 3 * fan) as nat, final(low).vals().len()),
        drivers_ok(r.1@, final(low).ports_view().len(), final(low).vals().len()),
        split_core_in(final(low).vals(), slot_nexts(r.0@), r.1@, fan as nat, *ty),
{
    let ghost slots = (1 + 3 * fan) as nat;
    let ghost np = low.ports_view().len();
    let ghost n0 = low.vals().len();
    let in_ix: usize = 0;
    let rsalt_slot: usize = 0;
    let ghost b0 = *low;
    let rsalt_q = low.emit(salt(), Op::RegRead(rsalt_slot as u32));
    proof {
        lemma_emitted(b0.vals(), salt_ty(), Op::RegRead(0));
        assert forall|i: int| 0 <= i < low.vals().len() implies (#[trigger] low.vals()[i]).op matches Op::RegRead(r) ==> (r as nat) < slots by {
            if i < b0.vals().len() {
                assert(low.vals().subrange(0, b0.vals().len() as int)[i] == low.vals()[i]);
            }
        }
    }
    low.name_value_safe(rsalt_q, String::from_str("i_rsalt_q"));
    let ghost b1 = *low;
    let empty = low.pipe_empty(in_ix, rsalt_q);
    let ghost bm = *low;
    let has_item = low.emit(bool_type(), Op::Un { op: UnOp::LogNot, arg: empty });
    let ghost b2 = *low;
    proof {
        lemma_emitted(bm.vals(), bool_ty(), Op::Un { op: UnOp::LogNot, arg: empty });
        crate::lowerer::lemma_appended_trans(b1.vals(), bm.vals(), b2.vals(), 2, 1);
        assert(comb_pipe(Comb::Split, fan as nat, 0).1);
        assert(bm.vals().subrange(0, b1.vals().len() as int)[rsalt_q.0 as int] == bm.vals()[rsalt_q.0 as int]);
        assert(b2.vals()[empty.0 as int] == bm.vals()[empty.0 as int]);
        assert(b2.vals()[b1.vals().len() as int] == bm.vals()[b1.vals().len() as int]);
        assert(b2.vals()[rsalt_q.0 as int] == bm.vals()[rsalt_q.0 as int]);
        assert(offer_at(b2.vals(), has_item, 0, 2));
    }
    let item = low.pipe_item_at(in_ix, rsalt_q);
    let ridx = match low.pipes[in_ix].idx {
        Some(v) => v,
        None => { proof { assert(false); } ValueId(0) },
    };
    proof {
        lemma_grows_appended(b1.vals(), b2.vals(), 3);
        lemma_grows_appended(b2.vals(), low.vals(), 6);
        lemma_grows_trans(b1.vals(), b2.vals(), low.vals());
        lemma_regs_read_below_grows(b1.vals(), low.vals(), slots);
    }
    let ghost n1 = low.vals().len();
    let ghost bi = low.vals();
    proof {
        // The item is the entry of the input's data word its read index picks.
        lemma_emitted(b0.vals(), salt_ty(), Op::RegRead(0));
        lemma_grows_tr(b0.vals(), emitted(b0.vals(), salt_ty(), Op::RegRead(0)), b1.vals());
        lemma_appended_grows(b1.vals(), bm.vals(), 2);
        lemma_grows_tr(b0.vals(), b1.vals(), bm.vals());
        lemma_grows_tr(b0.vals(), bm.vals(), b2.vals());
        lemma_appended_grows(b2.vals(), bi, 6);
        lemma_grows_tr(b0.vals(), b2.vals(), bi);
        assert(input_data(old(low).vals(), old(low).pipes@[0], 0));
        let dv = old(low).pipes@[0].data_value->0;
        assert(bi[dv.0 as int].op == old(low).vals()[dv.0 as int].op);
        assert(bi[rsalt_q.0 as int].op == b2.vals()[rsalt_q.0 as int].op);
        assert(entry_of(bi, item, *ty, 4, 0));
    }

    let mut sides: Vec<OutSide> = Vec::new();
    let mut k: usize = 0;
    while k < fan
        invariant
            builder_ok(*low, slots),
            slots == 1 + 3 * fan,
            split_budget(fan as nat) <= u32::MAX,
            low.ports_view() == old(low).ports_view(),
            np == old(low).ports_view().len(),
            low.pipes@.len() == fan + 1,
            forall|j: int| 1 <= j <= fan ==> (#[trigger] low.pipes@[j]).ty == *ty,
            k <= fan,
            sides@.len() == k,
            forall|j: int| 0 <= j < k ==> side_ok(#[trigger] sides@[j], low.vals().len()) && sides@[j].base == 1 + 3 * j,
            low.vals().len() <= n1 + 9 * k,
            n1 <= fan + 13,
            vid_ok(item, n1), vid_ok(has_item, n1), vid_ok(ridx, n1), vid_ok(rsalt_q, n1),
            n1 <= low.vals().len(),
            grows(b2.vals(), low.vals()),
            offer_at(b2.vals(), has_item, 0, 2),
            (rsalt_q.0 as int) < b2.vals().len() && b2.vals()[rsalt_q.0 as int].op == Op::RegRead(0),
            comb_pipes_ok(*old(low), Comb::Split, fan as nat, *ty),
            forall|j: int| 1 <= j <= fan ==> #[trigger] low.pipes@[j] == old(low).pipes@[j],
            forall|j: int| 0 <= j < k ==> full_at(low.vals(), (#[trigger] sides@[j]).full, sides@[j].wsalt_q,
                (3 + 3 * j) as nat, (6 + 3 * j) as nat),
            forall|j: int| 0 <= j < k ==> side_regs(low.vals(), #[trigger] sides@[j], (1 + 3 * j) as nat),
            low.pipes@[0].rsalt_port.0 == 3,
            grows(bi, low.vals()),
        decreases fan - k,
    {
        let ghost before = *low;
        let side = out_side(low, 1 + k, 1 + 3 * k);
        sides.push(side);
        proof {
            lemma_grows_tr(bi, before.vals(), low.vals());
            assert(side_regs(low.vals(), side, (1 + 3 * k) as nat));
            assert forall|j: int| 0 <= j < k + 1 implies side_regs(low.vals(), #[trigger] sides@[j], (1 + 3 * j) as nat) by {
                if j < k {
                    lemma_side_regs_grows(before.vals(), low.vals(), sides@[j], (1 + 3 * j) as nat);
                }
            }
            lemma_appended_grows(before.vals(), low.vals(), 9);
            lemma_grows_tr(b2.vals(), before.vals(), low.vals());
            assert(old(low).pipes@[1 + k as int].rsalt_port.0 == 3 + 3 * (1 + k));
            assert(!comb_pipe(Comb::Split, fan as nat, (1 + k) as nat).1);
            assert(full_at(low.vals(), side.full, side.wsalt_q, (3 + 3 * k) as nat, (6 + 3 * k) as nat));
            assert forall|j: int| 0 <= j < k + 1 implies full_at(low.vals(), (#[trigger] sides@[j]).full, sides@[j].wsalt_q,
                (3 + 3 * j) as nat, (6 + 3 * j) as nat) by {
                if j < k {
                    lemma_full_grows(before.vals(), low.vals(), sides@[j].full, sides@[j].wsalt_q, (3 + 3 * j) as nat, (6 + 3 * j) as nat);
                }
            }
            assert(regs_read_below(low.vals(), slots)) by {
                assert forall|i: int| 0 <= i < low.vals().len() implies (#[trigger] low.vals()[i]).op matches Op::RegRead(r) ==> (r as nat) < slots by {
                    if i < before.vals().len() {
                        assert(low.vals().subrange(0, before.vals().len() as int)[i] == low.vals()[i]);
                    }
                }
            }
            assert forall|j: int| 0 <= j < k + 1 implies side_ok(#[trigger] sides@[j], low.vals().len()) && sides@[j].base == 1 + 3 * j by {
                if j < k {
                    assert(side_ok(sides@[j], before.vals().len()));
                }
            }
        }
        k = k + 1;
    }
    let ghost n2 = low.vals().len();
    let ghost sv = low.vals();

    let mut rooms: Vec<ValueId> = Vec::new();
    let mut k: usize = 0;
    while k < fan
        invariant
            builder_ok(*low, slots),
            low.ports_view() == old(low).ports_view(),
            np == old(low).ports_view().len(),
            low.pipes@.len() == fan + 1,
            forall|j: int| 1 <= j <= fan ==> (#[trigger] low.pipes@[j]).ty == *ty,
            k <= fan,
            split_budget(fan as nat) <= u32::MAX,
            sides@.len() == fan,
            forall|j: int| 0 <= j < fan ==> side_ok(#[trigger] sides@[j], n2) && sides@[j].base == 1 + 3 * j,
            rooms@.len() == k,
            forall|j: int| 0 <= j < k ==> vid_ok(#[trigger] rooms@[j], low.vals().len()),
            low.vals().len() <= n2 + k,
            n2 <= n1 + 9 * fan,
            n1 <= fan + 13,
            n2 <= low.vals().len(),
            sv.len() == n2,
            grows(sv, low.vals()),
            grows(b2.vals(), sv),
            offer_at(b2.vals(), has_item, 0, 2),
            (rsalt_q.0 as int) < b2.vals().len() && b2.vals()[rsalt_q.0 as int].op == Op::RegRead(0),
            forall|j: int| 0 <= j < fan ==> full_at(sv, (#[trigger] sides@[j]).full, sides@[j].wsalt_q,
                (3 + 3 * j) as nat, (6 + 3 * j) as nat),
            forall|j: int| 0 <= j < k ==> room_at(low.vals(), #[trigger] rooms@[j], (3 + 3 * j) as nat, (6 + 3 * j) as nat),
            forall|j: int| 1 <= j <= fan ==> #[trigger] low.pipes@[j] == old(low).pipes@[j],
            low.pipes@[0].rsalt_port.0 == 3,
        decreases fan - k,
    {
        let ghost before = *low;
        let r = low.emit(bool_type(), Op::Un { op: UnOp::LogNot, arg: sides[k].full });
        rooms.push(r);
        proof {
            lemma_emitted(before.vals(), bool_ty(), Op::Un { op: UnOp::LogNot, arg: sides@[k as int].full });
            lemma_grows_tr(sv, before.vals(), low.vals());
            lemma_full_grows(sv, low.vals(), sides@[k as int].full, sides@[k as int].wsalt_q, (3 + 3 * k) as nat, (6 + 3 * k) as nat);
            assert(full_at(low.vals(), low.vals()[r.0 as int].op->Un_arg, sides@[k as int].wsalt_q, (3 + 3 * k) as nat, (6 + 3 * k) as nat));
            assert forall|j: int| 0 <= j < k + 1 implies room_at(low.vals(), #[trigger] rooms@[j], (3 + 3 * j) as nat, (6 + 3 * j) as nat) by {
                if j < k {
                    lemma_room_grows(before.vals(), low.vals(), rooms@[j], (3 + 3 * j) as nat, (6 + 3 * j) as nat);
                }
            }
            lemma_regs_read_below_grows(before.vals(), low.vals(), slots);
        }
        k = k + 1;
    }
    let ghost b3 = *low;
    let all_room = crate::ir_fsm::all_of(low, rooms.as_slice());
    let ghost ba = *low;
    proof { lemma_regs_read_below_grows(b3.vals(), low.vals(), slots); }
    low.name_value_safe(all_room, String::from_str("all_room"));
    let ghost b4 = *low;
    let take = low.emit(bool_type(), Op::Bin { op: BinOp::And, lhs: has_item, rhs: all_room });
    let ghost bt0 = *low;
    proof {
        lemma_emitted(b4.vals(), bool_ty(), Op::Bin { op: BinOp::And, lhs: has_item, rhs: all_room });
        lemma_regs_read_below_grows(b4.vals(), low.vals(), slots);
    }
    low.name_value_safe(take, String::from_str("take"));
    let ghost n3 = low.vals().len();
    let ghost bt = low.vals();
    let ghost from = b3.vals().len();
    proof {
        lemma_grows_tr(b3.vals(), ba.vals(), b4.vals());
        lemma_grows_tr(b3.vals(), b4.vals(), bt0.vals());
        lemma_grows_tr(b3.vals(), bt0.vals(), bt);
        lemma_grows_tr(b4.vals(), bt0.vals(), bt);
        // `take`: the input has an item and every output has room.
        assert forall|leaf: spec_fn(ValueId) -> int| #[trigger] leaves_fit(bt, from, leaf) implies
            (computed(bt, from, leaf, take) != 0 <==> computed(bt, from, leaf, has_item) != 0
                && forall|j: int| 0 <= j < fan ==> #[trigger] computed(bt, from, leaf, rooms@[j]) != 0) by {
            lemma_leaves_fit_back(b3.vals(), bt, from, leaf);
            lemma_leaves_fit_back(b4.vals(), bt, from, leaf);
            lemma_leaves_fit_grows(b3.vals(), ba.vals(), from, leaf);
            if fan == 0 {
                assert(computed(ba.vals(), from, leaf, all_room) == 1);
            } else {
                lemma_and_chain(b3.vals(), from, leaf, rooms@);
            }
            assert(computed(ba.vals(), from, leaf, all_room) != 0 <==> forall|j: int| 0 <= j < fan ==> #[trigger] computed(b3.vals(), from, leaf, rooms@[j]) != 0);
            lemma_computed_grows(ba.vals(), b4.vals(), from, leaf, all_room);
            lemma_and_emitted(b4.vals(), from, leaf, has_item, all_room);
            assert(computed(bt0.vals(), from, leaf, take) != 0 <==> computed(b4.vals(), from, leaf, has_item) != 0 && computed(b4.vals(), from, leaf, all_room) != 0);
            lemma_computed_grows(bt0.vals(), bt, from, leaf, take);
            lemma_computed_grows(b4.vals(), bt, from, leaf, has_item);
            assert forall|j: int| #![trigger computed(bt, from, leaf, rooms@[j])] #![trigger computed(b3.vals(), from, leaf, rooms@[j])]
                0 <= j < fan implies computed(bt, from, leaf, rooms@[j]) == computed(b3.vals(), from, leaf, rooms@[j]) by {
                lemma_computed_grows(b3.vals(), bt, from, leaf, rooms@[j]);
            }
        }
    }

    let mut out_regs: Vec<RegSlot> = Vec::new();
    let mut drivers: Vec<(PortId, ValueId)> = Vec::new();
    let mut k: usize = 0;
    while k < fan
        invariant
            builder_ok(*low, slots),
            low.ports_view() == old(low).ports_view(),
            np == old(low).ports_view().len(),
            low.pipes@.len() == fan + 1,
            k <= fan,
            split_budget(fan as nat) <= u32::MAX,
            sides@.len() == fan,
            forall|j: int| 0 <= j < fan ==> side_ok(#[trigger] sides@[j], n3) && sides@[j].base == 1 + 3 * j,
            vid_ok(item, n3), vid_ok(take, n3),
            out_regs@.len() == 3 * k,
            forall|j: int| 0 <= j < out_regs@.len() ==> (#[trigger] out_regs@[j]).0 == 1 + j && vid_ok(out_regs@[j].3, low.vals().len()),
            drivers_ok(drivers@, np, low.vals().len()),
            low.vals().len() <= n3 + 11 * k,
            n3 <= n2 + 2 * fan + 3,
            n2 <= n1 + 9 * fan,
            n1 <= fan + 13,
            n3 <= low.vals().len(),
            bt.len() == n3,
            grows(bt, low.vals()),
            grows(sv, bt),
            forall|j: int| 0 <= j < fan ==> full_at(sv, (#[trigger] sides@[j]).full, sides@[j].wsalt_q,
                (3 + 3 * j) as nat, (6 + 3 * j) as nat),
            forall|i: int| 0 <= i < out_regs@.len() && i % 3 == 2 ==> steps_on(low.vals(), (#[trigger] out_regs@[i]).3, (i + 1) as nat, take),
            comb_pipes_ok(*old(low), Comb::Split, fan as nat, *ty),
            forall|j: int| 1 <= j <= fan ==> #[trigger] low.pipes@[j] == old(low).pipes@[j],
            low.pipes@[0].rsalt_port.0 == 3,
            forall|j: int| 0 <= j < fan ==> side_regs(sv, #[trigger] sides@[j], (1 + 3 * j) as nat),
            from <= n3,
            drivers@.len() == 2 * k,
            forall|j: int| 0 <= j < k ==> output_at(low.vals(), from, drivers@, seq![take] + slot_nexts(out_regs@), 2 * j,
                (j + 1) as nat, (1 + 3 * j) as nat, item, take, (#[trigger] sides@[j]).widx),
        decreases fan - k,
    {
        let ghost before = *low;
        let ghost regs_before = out_regs@;
        let ghost drivers_before = drivers@;
        proof {
            lemma_grows_tr(sv, bt, before.vals());
            lemma_side_regs_grows(sv, before.vals(), sides@[k as int], (1 + 3 * k) as nat);
        }
        push_out(low, 1 + k, &sides[k], item, take, &mut out_regs, &mut drivers);
        proof {
            lemma_grows_tr(sv, before.vals(), low.vals());
            lemma_side_regs_grows(sv, low.vals(), sides@[k as int], (1 + 3 * k) as nat);
            let nx = seq![take] + slot_nexts(out_regs@);
            let nb = seq![take] + slot_nexts(regs_before);
            assert(nx[(1 + 3 * k) as int] == out_regs@[3 * k as int].3);
            assert(nx[(2 + 3 * k) as int] == out_regs@[3 * k + 1].3);
            assert(output_at(low.vals(), from, drivers@, nx, 2 * k, (k + 1) as nat, (1 + 3 * k) as nat, item, take, sides@[k as int].widx));
            assert forall|j: int| 0 <= j < k + 1 implies output_at(low.vals(), from, drivers@, nx, 2 * j, (j + 1) as nat,
                (1 + 3 * j) as nat, item, take, (#[trigger] sides@[j]).widx) by {
                if j < k {
                    assert(drivers@.subrange(0, drivers_before.len() as int)[2 * j] == drivers@[2 * j]);
                    assert(drivers@.subrange(0, drivers_before.len() as int)[2 * j + 1] == drivers@[2 * j + 1]);
                    assert(out_regs@.subrange(0, regs_before.len() as int)[3 * j] == out_regs@[3 * j]);
                    assert(out_regs@.subrange(0, regs_before.len() as int)[3 * j + 1] == out_regs@[3 * j + 1]);
                    assert(nx[1 + 3 * j] == nb[1 + 3 * j]);
                    assert(nx[2 + 3 * j] == nb[2 + 3 * j]);
                    lemma_output_move(before.vals(), low.vals(), from, drivers_before, drivers@, nb, nx, 2 * j, (j + 1) as nat,
                        (1 + 3 * j) as nat, item, take, sides@[j].widx);
                }
            }
            lemma_regs_read_below_grows(before.vals(), low.vals(), slots);
            lemma_grows_tr(bt, before.vals(), low.vals());
            lemma_grows_tr(sv, bt, low.vals());
            assert(full_at(sv, sides@[k as int].full, sides@[k as int].wsalt_q, (3 + 3 * k) as nat, (6 + 3 * k) as nat));
            assert(low.vals()[sides@[k as int].wsalt_q.0 as int].op == sv[sides@[k as int].wsalt_q.0 as int].op);
            assert(steps_on(low.vals(), out_regs@[3 * k + 2].3, (3 * k + 3) as nat, take));
            assert forall|i: int| 0 <= i < out_regs@.len() && i % 3 == 2 implies steps_on(low.vals(), (#[trigger] out_regs@[i]).3, (i + 1) as nat, take) by {
                if i < regs_before.len() {
                    assert(out_regs@.subrange(0, regs_before.len() as int)[i] == out_regs@[i]);
                    lemma_steps_grows(before.vals(), low.vals(), out_regs@[i].3, (i + 1) as nat, take);
                }
            }
            assert forall|j: int| 0 <= j < out_regs@.len() implies (#[trigger] out_regs@[j]).0 == 1 + j && vid_ok(out_regs@[j].3, low.vals().len()) by {
                if j < regs_before.len() {
                    assert(out_regs@.subrange(0, regs_before.len() as int)[j] == out_regs@[j]);
                }
            }
            lemma_drivers_ok_grow(drivers_before, np, before.vals().len(), low.vals().len());
            assert forall|j: int| 0 <= j < drivers@.len() implies ((#[trigger] drivers@[j]).0.0 as nat) < np && vid_ok(drivers@[j].1, low.vals().len()) by {
                if j < drivers_before.len() {
                    assert(drivers@.subrange(0, drivers_before.len() as int)[j] == drivers@[j]);
                } else {
                    assert(pipe_ok(low.pipes@[1 + k as int], low.vals().len(), np));
                }
            }
        }
        k = k + 1;
    }

    let ghost b5 = *low;
    let next = low.salt_next(rsalt_q, ridx, take);
    proof {
        lemma_grows_appended(b5.vals(), low.vals(), 5);
        lemma_regs_read_below_grows(b5.vals(), low.vals(), slots);
    }
    let mut regs: Vec<RegSlot> = Vec::new();
    regs.push((rsalt_slot, String::from_str("i_rsalt_q"), salt(), next));
    let ghost first = regs@;
    let ghost outs = out_regs@;
    regs.append(&mut out_regs);
    let rsalt_port = low.pipes[in_ix].rsalt_port;
    let ghost drivers_before = drivers@;
    drivers.push((rsalt_port, rsalt_q));
    proof {
        assert(pipe_ok(low.pipes@[0], low.vals().len(), np));
        lemma_drivers_ok_grow(drivers_before, np, b5.vals().len(), low.vals().len());
        assert forall|j: int| 0 <= j < drivers@.len() implies ((#[trigger] drivers@[j]).0.0 as nat) < np && vid_ok(drivers@[j].1, low.vals().len()) by {
            if j < drivers_before.len() {
                assert(drivers@[j] == drivers_before[j]);
            }
        }
        assert forall|j: int| 0 <= j < regs@.len() implies (#[trigger] regs@[j]).0 == j && vid_ok(regs@[j].3, low.vals().len()) by {
            if j > 0 {
                assert(regs@[j] == out_regs_at(regs@, j));
            }
        }
        // What the split does each cycle, now over the finished values.
        let fin = low.vals();
        let nexts = slot_nexts(regs@);
        lemma_appended_grows(b5.vals(), fin, 5);
        lemma_grows_tr(bt, b5.vals(), fin);
        lemma_grows_tr(sv, bt, fin);
        lemma_grows_tr(b2.vals(), sv, fin);
        lemma_grows_tr(b3.vals(), bt, fin);
        lemma_offer_grows(b2.vals(), fin, has_item, 0, 2);
        assert forall|j: int| 0 <= j < fan implies room_at(fin, #[trigger] rooms@[j], (3 + 3 * j) as nat, (6 + 3 * j) as nat) by {
            lemma_room_grows(b3.vals(), fin, rooms@[j], (3 + 3 * j) as nat, (6 + 3 * j) as nat);
        }
        assert forall|leaf: spec_fn(ValueId) -> int| #[trigger] leaves_fit(fin, from, leaf) implies
            (computed(fin, from, leaf, take) != 0 <==> computed(fin, from, leaf, has_item) != 0
                && forall|j: int| 0 <= j < fan ==> #[trigger] computed(fin, from, leaf, rooms@[j]) != 0) by {
            lemma_leaves_fit_back(bt, fin, from, leaf);
            lemma_computed_grows(bt, fin, from, leaf, take);
            lemma_computed_grows(bt, fin, from, leaf, has_item);
            assert forall|j: int| #![trigger computed(bt, from, leaf, rooms@[j])] #![trigger computed(fin, from, leaf, rooms@[j])]
                0 <= j < fan implies computed(bt, from, leaf, rooms@[j]) == computed(fin, from, leaf, rooms@[j]) by {
                lemma_computed_grows(bt, fin, from, leaf, rooms@[j]);
            }
        }
        assert(fin[rsalt_q.0 as int].op == Op::RegRead(0));
        assert(nexts[0] == next);
        assert(steps_on(fin, nexts[0], 0, take));
        assert forall|j: int| 3 <= j < nexts.len() && j % 3 == 0 implies steps_on(fin, #[trigger] nexts[j], j as nat, take) by {
            assert(regs@[j] == outs[j - 1]);
            lemma_steps_grows(b5.vals(), fin, outs[j - 1].3, j as nat, take);
        }
        let drv = drivers@;
        let idxs = sides@.map_values(|sd: OutSide| sd.widx);
        lemma_grows_tr(bi, sv, fin);
        lemma_entry_grows(bi, fin, item, *ty, 4, 0);
        assert(regs@ == first + outs);
        let nl = seq![take] + slot_nexts(outs);
        assert forall|k: int| 0 <= k < fan implies output_at(fin, from, drv, nexts, 2 * k, (k + 1) as nat, (1 + 3 * k) as nat,
            item, take, #[trigger] idxs[k]) by {
            assert(nexts[1 + 3 * k] == nl[1 + 3 * k]);
            assert(nexts[2 + 3 * k] == nl[2 + 3 * k]);
            assert(drv[2 * k] == drivers_before[2 * k]);
            assert(drv[2 * k + 1] == drivers_before[2 * k + 1]);
            lemma_output_move(b5.vals(), fin, from, drivers_before, drv, nl, nexts, 2 * k, (k + 1) as nat, (1 + 3 * k) as nat,
                item, take, sides@[k].widx);
        }
        assert(reads_reg(fin, rsalt_q, 0));
        assert(split_parts(fin, nexts, drv, fan as nat, *ty, from, has_item, rooms@, take, item, idxs));
    }
    (regs, drivers)
}

spec fn out_regs_at(regs: Seq<RegSlot>, j: int) -> RegSlot {
    regs[j]
}

/// `a < b` leaves room for one more `c`.
proof fn lemma_mul_step(a: nat, b: nat, c: nat)
    requires
        a < b,
    ensures
        a * c + c <= b * c,
        (a + 1) * c == a * c + c,
{
    assert(a * c + c <= b * c) by (nonlinear_arith)
        requires
            a < b,
    ;
    assert((a + 1) * c == a * c + c) by (nonlinear_arith);
}

/// Under start `s`, input `j` comes before input `k`: it is nearer `s`,
/// counting round from `s`.
pub open spec fn is_ahead(j: int, k: int, s: int, fan: int) -> bool {
    (j + fan - s) % fan < (k + fan - s) % fan
}

/// The inputs before `n` that come before `k` under start `s`, in order.
pub open spec fn ahead_upto(offered: Seq<ValueId>, k: int, s: int, fan: int, n: int) -> Seq<ValueId>
    decreases n,
{
    if n <= 0 {
        Seq::empty()
    } else {
        let p = ahead_upto(offered, k, s, fan, n - 1);
        if is_ahead(n - 1, k, s, fan) {
            p.push(offered[n - 1])
        } else {
            p
        }
    }
}

/// Some value among `a` is true under `val`.
pub open spec fn some_true(val: spec_fn(ValueId) -> int, a: Seq<ValueId>) -> bool {
    exists|i: int| 0 <= i < a.len() && val(#[trigger] a[i]) != 0
}

/// Some input before `n` that comes before `k` under start `s` offers.
pub open spec fn some_ahead_offers(val: spec_fn(ValueId) -> int, offered: Seq<ValueId>, k: int, s: int, fan: int, n: int) -> bool {
    exists|j: int| 0 <= j < n && is_ahead(j, k, s, fan) && val(#[trigger] offered[j]) != 0
}

proof fn lemma_ahead_any(val: spec_fn(ValueId) -> int, offered: Seq<ValueId>, k: int, s: int, fan: int, n: int)
    requires
        0 <= n <= offered.len(),
    ensures
        some_true(val, ahead_upto(offered, k, s, fan, n)) == some_ahead_offers(val, offered, k, s, fan, n),
        ahead_upto(offered, k, s, fan, n).len() <= n,
        forall|i: int| 0 <= i < ahead_upto(offered, k, s, fan, n).len() ==> exists|j: int| 0 <= j < n
            && #[trigger] ahead_upto(offered, k, s, fan, n)[i] == offered[j],
    decreases n,
{
    if n > 0 {
        lemma_ahead_any(val, offered, k, s, fan, n - 1);
        let p = ahead_upto(offered, k, s, fan, n - 1);
        let a = ahead_upto(offered, k, s, fan, n);
        if some_true(val, a) {
            let i = choose|i: int| 0 <= i < a.len() && val(#[trigger] a[i]) != 0;
            if i < p.len() {
                assert(a[i] == p[i]);
                assert(some_true(val, p));
            } else {
                assert(val(offered[n - 1]) != 0);
            }
        }
        if some_ahead_offers(val, offered, k, s, fan, n) {
            let j = choose|j: int| 0 <= j < n && is_ahead(j, k, s, fan) && val(#[trigger] offered[j]) != 0;
            if j < n - 1 {
                assert(some_ahead_offers(val, offered, k, s, fan, n - 1));
                let i = choose|i: int| 0 <= i < p.len() && val(#[trigger] p[i]) != 0;
                assert(a[i] == p[i]);
            } else {
                assert(a[a.len() - 1] == offered[n - 1]);
            }
        }
        assert forall|i: int| 0 <= i < a.len() implies exists|j: int| 0 <= j < n && #[trigger] a[i] == offered[j] by {
            if i < p.len() {
                assert(a[i] == p[i]);
                let j = choose|j: int| 0 <= j < n - 1 && #[trigger] p[i] == offered[j];
            } else {
                assert(a[i] == offered[n - 1]);
            }
        }
    }
}

/// Input `k` would be granted under start `s`: the turn is `s`, and no input
/// that comes before `k` from there is offering.
pub open spec fn first_under(vals: Seq<ValueDef>, from: nat, leaf: spec_fn(ValueId) -> int, k: int, s: int, fan: int, turn: ValueId, offered: Seq<ValueId>) -> bool {
    &&& computed(vals, from, leaf, turn) == s
    &&& forall|j: int| 0 <= j < fan && is_ahead(j, k, s, fan) ==> computed(vals, from, leaf, #[trigger] offered[j]) == 0
}

/// Whether input `k` is the first one offering, counting from input `s`.
///
/// Granted under start `s` when nothing ahead of it is offering: the inputs
/// ahead of `k` are the ones whose distance from `s` is smaller than `k`'s.
fn starts_first(
    low: &mut Lowerer,
    k: usize,
    s: usize,
    fan: usize,
    turn: ValueId,
    turn_ty: &Ty,
    offered: &Vec<ValueId>,
) -> (r: ValueId)
    requires
        old(low).inv(),
        old(low).room((fan + 4) as nat),
        1 <= fan <= 2000,
        k < fan,
        s < fan,
        offered@.len() == fan,
        forall|j: int| 0 <= j < fan ==> vid_ok(#[trigger] offered@[j], old(low).vals().len()),
        vid_ok(turn, old(low).vals().len()),
    ensures
        final(low).inv(),
        final(low).adds(old(low), (fan + 4) as nat),
        vid_ok(r, final(low).vals().len()),
        forall|from: nat, leaf: spec_fn(ValueId) -> int| from <= old(low).vals().len() && #[trigger] leaves_fit(old(low).vals(), from, leaf)
            ==> (computed(final(low).vals(), from, leaf, r) != 0
                <==> first_under(final(low).vals(), from, leaf, k as int, s as int, fan as int, turn, offered@)),
{
    let position = (k + fan - s) % fan;
    let mut ahead: Vec<ValueId> = Vec::new();
    let mut j: usize = 0;
    while j < fan
        invariant
            j <= fan,
            1 <= fan <= 2000,
            s < fan,
            offered@.len() == fan,
            forall|i: int| 0 <= i < fan ==> vid_ok(#[trigger] offered@[i], low.vals().len()),
            forall|i: int| 0 <= i < ahead@.len() ==> vid_ok(#[trigger] ahead@[i], low.vals().len()),
            ahead@.len() + (if j > k { 1int } else { 0int }) <= j,
            position == (k + fan - s) % (fan as int),
            k < fan,
            ahead@ == ahead_upto(offered@, k as int, s as int, fan as int, j as int),
        decreases fan - j,
    {
        if (j + fan - s) % fan < position {
            ahead.push(offered[j]);
        }
        j = j + 1;
    }
    proof {
        // `k` itself is never ahead of itself.
        assert(ahead@.len() + 1 <= fan);
    }
    let ghost b0 = *low;
    let ghost v0 = low.vals();
    // The input that goes FIRST under this start has nothing ahead of it, so
    // there is nothing to test.
    let ghost mut blocked_g = ValueId(0);
    let ghost mut b1v = v0;
    let clear = if ahead.len() == 0 {
        let c = low.emit(bool_type(), Op::Const(1));
        proof { lemma_emitted(b0.vals(), bool_ty(), Op::Const(1)); }
        c
    } else {
        let blocked = crate::ir_fsm::any_of(low, ahead.as_slice());
        let ghost b1 = *low;
        proof {
            blocked_g = blocked;
            b1v = b1.vals();
        }
        let c = low.emit(bool_type(), Op::Un { op: UnOp::LogNot, arg: blocked });
        proof {
            lemma_emitted(b1.vals(), bool_ty(), Op::Un { op: UnOp::LogNot, arg: blocked });
            lemma_grows_trans(b0.vals(), b1.vals(), low.vals());
            assert(low.vals().len() <= b0.vals().len() + fan + 1);
        }
        c
    };
    assert(low.vals().len() <= b0.vals().len() + fan + 1);
    let ghost b2 = *low;
    let is_start = low.emit(turn_ty.clone(), Op::Const(s as u128));
    proof { lemma_emitted(b2.vals(), *turn_ty, Op::Const(s as u128)); lemma_grows_trans(b0.vals(), b2.vals(), low.vals()); }
    let ghost b3 = *low;
    let matches = low.emit_eq(turn, is_start);
    proof { lemma_emitted(b3.vals(), bool_ty(), Op::Cmp { op: crate::ir::CmpOp::Eq, lhs: turn, rhs: is_start }); lemma_grows_trans(b0.vals(), b3.vals(), low.vals()); }
    let ghost b4 = *low;
    let r = low.emit(bool_type(), Op::Bin { op: BinOp::And, lhs: matches, rhs: clear });
    proof {
        lemma_emitted(b4.vals(), bool_ty(), Op::Bin { op: BinOp::And, lhs: matches, rhs: clear });
        lemma_grows_trans(b0.vals(), b4.vals(), low.vals());
        let fin = low.vals();
        let ah = ahead@;
        assert(v0 == old(low).vals());
        assert forall|from: nat, leaf: spec_fn(ValueId) -> int| from <= old(low).vals().len() && #[trigger] leaves_fit(old(low).vals(), from, leaf)
            implies (computed(fin, from, leaf, r) != 0
                <==> first_under(fin, from, leaf, k as int, s as int, fan as int, turn, offered@)) by {
            let val = |v: ValueId| computed(v0, from, leaf, v);
            lemma_ahead_any(val, offered@, k as int, s as int, fan as int, fan as int);
            // What the clear bit computes: no input ahead offers.
            let cl = computed(b2.vals(), from, leaf, clear);
            if ah.len() == 0 {
                assert(b2.vals()[clear.0 as int].op == Op::Const(1));
                assert(cl == 1);
                assert(!some_true(val, ah));
            } else {
                lemma_or_chain(v0, from, leaf, ah);
                assert(b2.vals()[clear.0 as int].op == (Op::Un { op: UnOp::LogNot, arg: blocked_g }));
                lemma_computed_grows(b1v, b2.vals(), from, leaf, blocked_g);
                assert(cl == (if computed(b1v, from, leaf, blocked_g) == 0 { 1int } else { 0int }));
                assert(computed(b1v, from, leaf, blocked_g) != 0 <==> some_true(val, ah)) by {
                    if some_true(val, ah) {
                        let i = choose|i: int| 0 <= i < ah.len() && val(#[trigger] ah[i]) != 0;
                        assert(computed(v0, from, leaf, ah[i]) != 0);
                    }
                    if exists|i: int| 0 <= i < ah.len() && #[trigger] computed(v0, from, leaf, ah[i]) != 0 {
                        let i = choose|i: int| 0 <= i < ah.len() && #[trigger] computed(v0, from, leaf, ah[i]) != 0;
                        assert(val(ah[i]) != 0);
                    }
                }
            }
            // The offered bits and the turn compute the same wherever they are read.
            assert forall|j: int| 0 <= j < fan implies computed(fin, from, leaf, #[trigger] offered@[j]) == val(offered@[j]) by {
                lemma_computed_grows(v0, fin, from, leaf, offered@[j]);
            }
            lemma_computed_grows(v0, fin, from, leaf, turn);
            lemma_computed_grows(v0, b4.vals(), from, leaf, turn);
            lemma_computed_grows(b2.vals(), fin, from, leaf, clear);
            lemma_computed_grows(b2.vals(), b4.vals(), from, leaf, clear);
            assert(b4.vals()[is_start.0 as int].op == Op::Const(s as u128));
            assert(computed(b4.vals(), from, leaf, is_start) == s);
            assert(b4.vals()[matches.0 as int].op == (Op::Cmp { op: crate::ir::CmpOp::Eq, lhs: turn, rhs: is_start }));
            let m = computed(b4.vals(), from, leaf, matches);
            assert(m == (if computed(b4.vals(), from, leaf, turn) == s { 1int } else { 0int }));
            lemma_computed_grows(b4.vals(), fin, from, leaf, matches);
            if crate::lowerer::is_const_at(b4.vals(), clear, 1) {
                assert(r == matches);
            } else {
                assert(!crate::lowerer::is_const_at(b4.vals(), matches, 1));
                assert(r.0 == b4.vals().len());
                assert(fin[r.0 as int].op == (Op::Bin { op: BinOp::And, lhs: matches, rhs: clear }));
            }
            if !first_under(fin, from, leaf, k as int, s as int, fan as int, turn, offered@) && computed(fin, from, leaf, turn) == s {
                let j = choose|j: int| 0 <= j < fan && is_ahead(j, k as int, s as int, fan as int)
                    && computed(fin, from, leaf, #[trigger] offered@[j]) != 0;
                assert(some_ahead_offers(val, offered@, k as int, s as int, fan as int, fan as int));
            }
            if some_ahead_offers(val, offered@, k as int, s as int, fan as int, fan as int) {
                let j = choose|j: int| 0 <= j < fan && is_ahead(j, k as int, s as int, fan as int) && val(#[trigger] offered@[j]) != 0;
                assert(computed(fin, from, leaf, offered@[j]) != 0);
            }
        }
    }
    r
}

/// Input `k` would be granted under some start: the one the turn names.
pub open spec fn first_under_some(vals: Seq<ValueDef>, from: nat, leaf: spec_fn(ValueId) -> int, k: int, fan: int, turn: ValueId, offered: Seq<ValueId>) -> bool {
    exists|s: int| 0 <= s < fan && #[trigger] first_under(vals, from, leaf, k, s, fan, turn, offered)
}

/// The grant of input `k`: it offers, and it is first under the current
/// `turn`. Rotating priority -- `turn` names the input that goes first this
/// cycle, and the rest follow in order after it -- so no input starves while
/// another is busy.
fn grant_for(
    low: &mut Lowerer,
    k: usize,
    fan: usize,
    turn: ValueId,
    turn_ty: &Ty,
    offered: &Vec<ValueId>,
) -> (g: ValueId)
    requires
        old(low).inv(),
        old(low).room((fan * (fan + 4) + fan + 2) as nat),
        1 <= fan <= 2000,
        k < fan,
        offered@.len() == fan,
        forall|j: int| 0 <= j < fan ==> vid_ok(#[trigger] offered@[j], old(low).vals().len()),
        vid_ok(turn, old(low).vals().len()),
    ensures
        final(low).inv(),
        final(low).adds(old(low), (fan * (fan + 4) + fan + 2) as nat),
        vid_ok(g, final(low).vals().len()),
        forall|from: nat, leaf: spec_fn(ValueId) -> int| from <= old(low).vals().len() && #[trigger] leaves_fit(old(low).vals(), from, leaf)
            ==> (computed(final(low).vals(), from, leaf, g) != 0 <==> (computed(final(low).vals(), from, leaf, offered@[k as int]) != 0
                && first_under_some(final(low).vals(), from, leaf, k as int, fan as int, turn, offered@))),
{
    let ghost n0 = low.vals().len();
    let ghost v0 = low.vals();
    let ghost c = (fan + 4) as nat;
    let mut per_start: Vec<ValueId> = Vec::new();
    let mut s: usize = 0;
    while s < fan
        invariant
            low.inv(),
            low.same_frame(old(low)),
            grows(old(low).vals(), low.vals()),
            no_reg_reads(low.vals(), n0),
            n0 == old(low).vals().len(),
            c == fan + 4,
            old(low).room((fan * (fan + 4) + fan + 2) as nat),
            1 <= fan <= 2000,
            k < fan,
            s <= fan,
            offered@.len() == fan,
            forall|j: int| 0 <= j < fan ==> vid_ok(#[trigger] offered@[j], n0),
            vid_ok(turn, n0),
            low.vals().len() <= n0 + s * c,
            per_start@.len() == s,
            forall|j: int| 0 <= j < s ==> vid_ok(#[trigger] per_start@[j], low.vals().len()),
            v0 == old(low).vals(),
            forall|from: nat, leaf: spec_fn(ValueId) -> int| from <= n0 && #[trigger] leaves_fit(v0, from, leaf)
                ==> forall|t: int| 0 <= t < s ==> (computed(low.vals(), from, leaf, #[trigger] per_start@[t]) != 0
                    <==> first_under(v0, from, leaf, k as int, t, fan as int, turn, offered@)),
        decreases fan - s,
    {
        proof { lemma_mul_step(s as nat, fan as nat, c); }
        let ghost before = *low;
        let ghost ps = per_start@;
        let v = starts_first(low, k, s, fan, turn, turn_ty, offered);
        per_start.push(v);
        proof {
            lemma_grows_trans(old(low).vals(), before.vals(), low.vals());
            let fin = low.vals();
            assert forall|from: nat, leaf: spec_fn(ValueId) -> int| from <= n0 && #[trigger] leaves_fit(v0, from, leaf)
                implies forall|t: int| 0 <= t < s + 1 ==> (computed(fin, from, leaf, #[trigger] per_start@[t]) != 0
                    <==> first_under(v0, from, leaf, k as int, t, fan as int, turn, offered@)) by {
                lemma_leaves_fit_grows(v0, before.vals(), from, leaf);
                assert(leaves_fit(before.vals(), from, leaf));
                lemma_computed_grows(v0, fin, from, leaf, turn);
                assert forall|j: int| 0 <= j < fan implies computed(fin, from, leaf, #[trigger] offered@[j])
                    == computed(v0, from, leaf, offered@[j]) by {
                    lemma_computed_grows(v0, fin, from, leaf, offered@[j]);
                }
                assert forall|t: int| 0 <= t < s + 1 implies (computed(fin, from, leaf, #[trigger] per_start@[t]) != 0
                    <==> first_under(v0, from, leaf, k as int, t, fan as int, turn, offered@)) by {
                    if t < s {
                        assert(per_start@[t] == ps[t]);
                        lemma_computed_grows(before.vals(), fin, from, leaf, ps[t]);
                    } else {
                        assert(per_start@[t] == v);
                        assert(first_under(fin, from, leaf, k as int, t, fan as int, turn, offered@)
                            == first_under(v0, from, leaf, k as int, t, fan as int, turn, offered@));
                    }
                }
            }
        }
        s = s + 1;
    }
    proof { assert(fan * c == fan * (fan + 4)); }
    let ghost b1 = *low;
    let first = crate::ir_fsm::any_of(low, per_start.as_slice());
    proof { lemma_grows_trans(old(low).vals(), b1.vals(), low.vals()); }
    let ghost b2 = *low;
    let g = low.emit(bool_type(), Op::Bin { op: BinOp::And, lhs: offered[k], rhs: first });
    proof {
        lemma_emitted(b2.vals(), bool_ty(), Op::Bin { op: BinOp::And, lhs: offered@[k as int], rhs: first });
        lemma_grows_trans(old(low).vals(), b2.vals(), low.vals());
    }
    let ghost b3 = low.vals();
    low.name_value_safe(g, numbered0("grant", k));
    proof {
        let fin = low.vals();
        let ok = offered@[k as int];
        assert forall|from: nat, leaf: spec_fn(ValueId) -> int| from <= old(low).vals().len() && #[trigger] leaves_fit(old(low).vals(), from, leaf)
            implies (computed(fin, from, leaf, g) != 0 <==> (computed(fin, from, leaf, ok) != 0
                && first_under_some(fin, from, leaf, k as int, fan as int, turn, offered@))) by {
            lemma_leaves_fit_grows(v0, b1.vals(), from, leaf);
            lemma_leaves_fit_grows(v0, b2.vals(), from, leaf);
            lemma_or_chain(b1.vals(), from, leaf, per_start@);
            lemma_computed_grows(b2.vals(), b3, from, leaf, first);
            lemma_computed_grows(b2.vals(), b3, from, leaf, ok);
            lemma_computed_grows(v0, b2.vals(), from, leaf, ok);
            lemma_computed_grows(b3, fin, from, leaf, g);
            lemma_computed_grows(v0, fin, from, leaf, ok);
            lemma_computed_grows(v0, fin, from, leaf, turn);
            assert forall|j: int| 0 <= j < fan implies computed(fin, from, leaf, #[trigger] offered@[j])
                == computed(v0, from, leaf, offered@[j]) by {
                lemma_computed_grows(v0, fin, from, leaf, offered@[j]);
            }
            // `first` is whether some start grants `k`.
            let fv = computed(b2.vals(), from, leaf, first);
            assert(fv != 0 <==> first_under_some(v0, from, leaf, k as int, fan as int, turn, offered@)) by {
                if fv != 0 {
                    let t = choose|t: int| 0 <= t < per_start@.len() && #[trigger] computed(b1.vals(), from, leaf, per_start@[t]) != 0;
                    assert(first_under(v0, from, leaf, k as int, t, fan as int, turn, offered@));
                }
                if first_under_some(v0, from, leaf, k as int, fan as int, turn, offered@) {
                    let t = choose|t: int| 0 <= t < fan && #[trigger] first_under(v0, from, leaf, k as int, t, fan as int, turn, offered@);
                    assert(computed(b1.vals(), from, leaf, per_start@[t]) != 0);
                }
            }
            assert(first_under_some(v0, from, leaf, k as int, fan as int, turn, offered@)
                == first_under_some(fin, from, leaf, k as int, fan as int, turn, offered@)) by {
                if first_under_some(v0, from, leaf, k as int, fan as int, turn, offered@) {
                    let t = choose|t: int| 0 <= t < fan && #[trigger] first_under(v0, from, leaf, k as int, t, fan as int, turn, offered@);
                    assert(first_under(fin, from, leaf, k as int, t, fan as int, turn, offered@));
                }
                if first_under_some(fin, from, leaf, k as int, fan as int, turn, offered@) {
                    let t = choose|t: int| 0 <= t < fan && #[trigger] first_under(fin, from, leaf, k as int, t, fan as int, turn, offered@);
                    assert(first_under(v0, from, leaf, k as int, t, fan as int, turn, offered@));
                }
            }
            if crate::lowerer::is_const_at(b2.vals(), first, 1) {
                crate::lower_mem::lemma_const_computed(b2.vals(), from, leaf, first, 1);
            } else if crate::lowerer::is_const_at(b2.vals(), ok, 1) {
                crate::lower_mem::lemma_const_computed(b2.vals(), from, leaf, ok, 1);
            } else {
                assert(g.0 == b2.vals().len());
                assert(b3[g.0 as int].op == (Op::Bin { op: BinOp::And, lhs: ok, rhs: first }));
            }
        }
    }
    g
}

/// The number of values a `@merge` of `fan` inputs adds, at most.
pub open spec fn merge_budget(fan: nat) -> nat {
    fan * (fan * (fan + 4) + fan + 2) + 30 * fan + 40
}

/// The number of values a `@split` of `fan` outputs adds, at most.
pub open spec fn split_budget(fan: nat) -> nat {
    24 * fan + 40
}

/// A merge whose values fit in the id space has a fan of at most 2000.
proof fn lemma_merge_budget(fan: nat)
    requires
        merge_budget(fan) + fan + 3 < 0x1_0000_0000 - 1,
    ensures
        fan <= 2000,
{
    if fan > 2000 {
        assert(fan * (fan * (fan + 4) + fan + 2) > 2000 * (2000 * 2004 + 2002)) by (nonlinear_arith)
            requires
                fan > 2000,
        ;
    }
}

/// Rotating priority, read through `leaf`: input `k` offers, and no input
/// ahead of it -- counting from the one `turn` names -- does.
pub open spec fn first_from_turn(leaf: spec_fn(ValueId) -> int, k: int, fan: int, turn: ValueId, offered: Seq<ValueId>) -> bool {
    &&& leaf(offered[k]) != 0
    &&& 0 <= leaf(turn) < fan
    &&& forall|j: int| 0 <= j < fan && is_ahead(j, k, leaf(turn), fan) ==> leaf(#[trigger] offered[j]) == 0
}

/// The turn after this cycle, read through `leaf`, having looked at the
/// first `k` inputs: the one after the last of them that went, or `turn`
/// when none did. Whoever went this time goes last next time.
pub open spec fn turn_after(leaf: spec_fn(ValueId) -> int, turn: ValueId, went: spec_fn(int) -> bool, fan: int, k: int) -> int
    decreases k,
{
    if k <= 0 {
        leaf(turn)
    } else if went(k - 1) {
        k % fan
    } else {
        turn_after(leaf, turn, went, fan, k - 1)
    }
}

/// Which inputs went this cycle, read through `leaf`: granted, with room.
pub open spec fn went_in(vals: Seq<ValueDef>, from: nat, leaf: spec_fn(ValueId) -> int, grants: Seq<ValueId>, room: ValueId, fan: int) -> spec_fn(int) -> bool {
    |j: int| 0 <= j < fan && computed(vals, from, leaf, grants[j]) != 0 && leaf(room) != 0
}

/// What a `@merge` does each cycle, over `vals` and its registers' next
/// values `nexts`: input `k` is granted exactly when it offers and comes
/// first counting from `turn`; the output takes (`push`) exactly when some
/// input is granted and it has `room`; the output's write salt steps on
/// `push`, each input's read salt on its own grant and `push`, and the turn
/// passes to the input after the one that went. The output's data port
/// carries its two entries, which load the granted input's item on a push
/// the write index points at; its write-salt port carries its write salt,
/// each input's read-salt port that input's read salt, and nothing else is
/// driven.
pub open spec fn merge_parts(vals: Seq<ValueDef>, nexts: Seq<ValueId>, drivers: Seq<(PortId, ValueId)>, fan: nat, ty: Ty,
    from: nat, turn: ValueId, offered: Seq<ValueId>, grants: Seq<ValueId>, room: ValueId, push: ValueId,
    item: ValueId, items: Seq<ValueId>, idx: ValueId) -> bool {
    &&& from <= vals.len()
    &&& nexts.len() == fan + 4 && offered.len() == fan && grants.len() == fan
    &&& (turn.0 as int) < from && vals[turn.0 as int].op == Op::RegRead((fan + 3) as u32)
    &&& forall|k: int| 0 <= k < fan ==> ((#[trigger] offered[k]).0 as int) < from
        && offer_at(vals, offered[k], k as nat, (2 + 3 * k) as nat)
    &&& forall|k: int| 0 <= k < fan ==> ((#[trigger] grants[k]).0 as int) < vals.len()
    &&& forall|k: int, leaf: spec_fn(ValueId) -> int| #![trigger computed(vals, from, leaf, grants[k])]
        0 <= k < fan && leaves_fit(vals, from, leaf) ==>
            (computed(vals, from, leaf, grants[k]) != 0 <==> first_from_turn(leaf, k, fan as int, turn, offered))
    &&& (room.0 as int) < from && room_at(vals, room, (fan + 2) as nat, (3 + 3 * fan) as nat)
    &&& (push.0 as int) < vals.len()
    &&& forall|leaf: spec_fn(ValueId) -> int| #[trigger] leaves_fit(vals, from, leaf) ==>
        (computed(vals, from, leaf, push) != 0 <==> leaf(room) != 0
            && exists|k: int| 0 <= k < fan && #[trigger] computed(vals, from, leaf, grants[k]) != 0)
    &&& steps_on(vals, nexts[fan + 2int], (fan + 2) as nat, push)
    &&& forall|k: int| 0 <= k < fan ==> steps_on_both(vals, from, #[trigger] nexts[k], k as nat, grants[k], push)
    &&& forall|leaf: spec_fn(ValueId) -> int| #[trigger] leaves_fit(vals, from, leaf) ==>
        computed(vals, from, leaf, nexts[fan + 3int]) == turn_after(leaf, turn, went_in(vals, from, leaf, grants, room, fan as int),
            fan as int, fan as int)
    &&& items.len() == fan && drivers.len() == fan + 2
    &&& forall|k: int| 0 <= k < fan ==> entry_of(vals, #[trigger] items[k], ty, (4 + 3 * k) as nat, k as nat)
    &&& picked(vals, item, grants, items, fan)
    &&& output_at(vals, from, drivers, nexts, 0, fan, fan, item, push, idx)
    &&& forall|i: int| 2 <= i < drivers.len() ==> (#[trigger] drivers[i]).0 == PortId((3 + 3 * (i - 2)) as u32)
        && reads_reg(vals, drivers[i].1, (i - 2) as nat)
}

/// A `@merge`'s logic, as `merge_parts` states it for some of its values.
pub open spec fn merge_core_in(vals: Seq<ValueDef>, nexts: Seq<ValueId>, drivers: Seq<(PortId, ValueId)>, fan: nat, ty: Ty) -> bool {
    exists|from: nat, turn: ValueId, offered: Seq<ValueId>, grants: Seq<ValueId>, room: ValueId, push: ValueId,
        item: ValueId, items: Seq<ValueId>, idx: ValueId|
        #[trigger] merge_parts(vals, nexts, drivers, fan, ty, from, turn, offered, grants, room, push, item, items, idx)
}

/// Below `from` every value reads through `leaf`, so the grant rule reads
/// the same whatever was emitted after the offers and the turn.
proof fn lemma_first_from_turn(vals: Seq<ValueDef>, from: nat, leaf: spec_fn(ValueId) -> int, k: int, fan: int, turn: ValueId, offered: Seq<ValueId>)
    requires
        (turn.0 as int) < from,
        offered.len() == fan,
        0 <= k < fan,
        forall|j: int| 0 <= j < fan ==> ((#[trigger] offered[j]).0 as int) < from,
    ensures
        (computed(vals, from, leaf, offered[k]) != 0 && first_under_some(vals, from, leaf, k, fan, turn, offered))
            <==> first_from_turn(leaf, k, fan, turn, offered),
{
    assert(computed(vals, from, leaf, turn) == leaf(turn));
    assert forall|j: int| 0 <= j < fan implies computed(vals, from, leaf, #[trigger] offered[j]) == leaf(offered[j]) by {}
    if first_under_some(vals, from, leaf, k, fan, turn, offered) {
        let s = choose|s: int| 0 <= s < fan && #[trigger] first_under(vals, from, leaf, k, s, fan, turn, offered);
        assert(s == leaf(turn));
    }
    if first_from_turn(leaf, k, fan, turn, offered) {
        assert(first_under(vals, from, leaf, k, leaf(turn), fan, turn, offered));
    }
}

/// The body of a `@merge`: several inputs onto one output, one at a time.
#[verifier::spinoff_prover]
#[verifier::rlimit(80)]
fn build_merge(low: &mut Lowerer, fan: usize, ty: &Ty) -> (r: (Vec<RegSlot>, Vec<(PortId, ValueId)>))
    requires
        builder_ok(*old(low), (fan + 4) as nat),
        comb_pipes_ok(*old(low), Comb::Merge, fan as nat, *ty),
        1 <= width(*ty),
        2 * width(*ty) <= u32::MAX,
        1 <= fan,
        merge_budget(fan as nat) + fan + 3 < 0x1_0000_0000 - 1,
        old(low).vals().len() <= fan + 3,
    ensures
        builder_ok(*final(low), (fan + 4) as nat),
        final(low).ports_view() == old(low).ports_view(),
        slots_in_order(r.0@, (fan + 4) as nat, final(low).vals().len()),
        drivers_ok(r.1@, final(low).ports_view().len(), final(low).vals().len()),
        merge_core_in(final(low).vals(), slot_nexts(r.0@), r.1@, fan as nat, *ty),
{
    let ghost slots = (fan + 4) as nat;
    let ghost np = low.ports_view().len();
    let ghost n0 = low.vals().len();
    let ghost budget = merge_budget(fan as nat);
    proof { lemma_merge_budget(fan as nat); }
    let out_ix = fan;
    let ghost b0 = *low;
    let side = out_side(low, out_ix, fan);
    proof {
        assert forall|i: int| 0 <= i < low.vals().len() implies (#[trigger] low.vals()[i]).op matches Op::RegRead(r) ==> (r as nat) < slots by {
            if i < b0.vals().len() {
                assert(low.vals().subrange(0, b0.vals().len() as int)[i] == low.vals()[i]);
            }
        }
    }
    let ghost b1 = *low;
    let room = low.emit(bool_type(), Op::Un { op: UnOp::LogNot, arg: side.full });
    proof {
        lemma_emitted(b1.vals(), bool_ty(), Op::Un { op: UnOp::LogNot, arg: side.full });
        lemma_regs_read_below_grows(b1.vals(), low.vals(), slots);
    }
    low.name_value_safe(room, String::from_str("room"));
    let ghost n1 = low.vals().len();
    let ghost br = low.vals();
    proof {
        assert(!comb_pipe(Comb::Merge, fan as nat, fan as nat).1);
        assert(low.pipes@[fan as int].rsalt_port.0 == 3 + 3 * fan);
        lemma_appended_grows(b0.vals(), b1.vals(), 9);
        lemma_grows_tr(b1.vals(), emitted(b1.vals(), bool_ty(), Op::Un { op: UnOp::LogNot, arg: side.full }), br);
        lemma_full_grows(b1.vals(), br, side.full, side.wsalt_q, (fan + 2) as nat, (3 + 3 * fan) as nat);
        assert(full_at(br, br[room.0 as int].op->Un_arg, side.wsalt_q, (fan + 2) as nat, (3 + 3 * fan) as nat));
        assert(room_at(br, room, (fan + 2) as nat, (3 + 3 * fan) as nat));
        assert(br[side.wsalt_q.0 as int].op == Op::RegRead((fan + 2) as u32));
        lemma_grows_tr(b0.vals(), b1.vals(), br);
        lemma_side_regs_grows(b1.vals(), br, side, fan as nat);
    }

    let mut rsalts: Vec<ValueId> = Vec::new();
    let mut items: Vec<ValueId> = Vec::new();
    let mut ridxs: Vec<ValueId> = Vec::new();
    let mut offered: Vec<ValueId> = Vec::new();
    let mut k: usize = 0;
    while k < fan
        invariant
            builder_ok(*low, slots),
            slots == fan + 4,
            1 <= fan <= 2000,
            low.ports_view() == old(low).ports_view(),
            np == old(low).ports_view().len(),
            low.pipes@.len() == fan + 1,
            forall|j: int| k <= j < fan ==> (#[trigger] low.pipes@[j]).is_input && low.pipes@[j].data_value is Some
                && low.pipes@[j].ty == *ty,
            1 <= width(*ty),
            k <= fan,
            rsalts@.len() == k && items@.len() == k && ridxs@.len() == k && offered@.len() == k,
            forall|j: int| 0 <= j < k ==> vid_ok(#[trigger] rsalts@[j], low.vals().len()),
            forall|j: int| 0 <= j < k ==> vid_ok(#[trigger] items@[j], low.vals().len()),
            forall|j: int| 0 <= j < k ==> vid_ok(#[trigger] ridxs@[j], low.vals().len()),
            forall|j: int| 0 <= j < k ==> vid_ok(#[trigger] offered@[j], low.vals().len()),
            grows(br, low.vals()),
            br.len() == n1,
            comb_pipes_ok(*old(low), Comb::Merge, fan as nat, *ty),
            forall|j: int| k <= j <= fan ==> #[trigger] low.pipes@[j] == old(low).pipes@[j],
            forall|j: int| 0 <= j < k ==> offer_at(low.vals(), #[trigger] offered@[j], j as nat, (2 + 3 * j) as nat),
            forall|j: int| 0 <= j < k ==> low.vals()[(#[trigger] rsalts@[j]).0 as int].op == Op::RegRead(j as u32),
            grows(old(low).vals(), low.vals()),
            ports_kept(low.pipes@, old(low).pipes@),
            forall|j: int| 0 <= j < k ==> entry_of(low.vals(), #[trigger] items@[j], *ty, (4 + 3 * j) as nat, j as nat),
            side_ok(side, n1),
            vid_ok(room, n1),
            n1 <= low.vals().len(),
            low.vals().len() <= n1 + 10 * k,
            n1 <= n0 + 10,
            n0 <= fan + 3,
            budget == merge_budget(fan as nat),
            budget + fan + 3 < 0x1_0000_0000 - 1,
        decreases fan - k,
    {
        let ghost before = *low;
        let rsalt_q = low.emit(salt(), Op::RegRead(k as u32));
        proof {
            lemma_emitted(before.vals(), salt_ty(), Op::RegRead(k as u32));
            assert forall|i: int| 0 <= i < low.vals().len() implies (#[trigger] low.vals()[i]).op matches Op::RegRead(r) ==> (r as nat) < slots by {
                if i < before.vals().len() {
                    assert(low.vals().subrange(0, before.vals().len() as int)[i] == low.vals()[i]);
                }
            }
        }
        low.name_value_safe(rsalt_q, numbered("i", k, "_rsalt_q"));
        let ghost m1 = *low;
        let empty = low.pipe_empty(k, rsalt_q);
        let ghost m2 = *low;
        let has = low.emit(bool_type(), Op::Un { op: UnOp::LogNot, arg: empty });
        proof { lemma_emitted(m2.vals(), bool_ty(), Op::Un { op: UnOp::LogNot, arg: empty }); }
        low.name_value_safe(has, numbered("i", k, "_offered"));
        let ghost m3 = *low;
        let item = low.pipe_item_at(k, rsalt_q);
        let ridx = match low.pipes[k].idx {
            Some(v) => v,
            None => { proof { assert(false); } ValueId(0) },
        };
        proof {
            lemma_grows_appended(m1.vals(), m2.vals(), 2);
            let m2b = crate::lowerer::emitted(m2.vals(), bool_ty(), Op::Un { op: UnOp::LogNot, arg: empty });
            lemma_grows_trans(m1.vals(), m2.vals(), m2b);
            lemma_grows_trans(m1.vals(), m2b, m3.vals());
            lemma_grows_appended(m3.vals(), low.vals(), 6);
            lemma_grows_trans(m1.vals(), m3.vals(), low.vals());
            lemma_regs_read_below_grows(m1.vals(), low.vals(), slots);
            lemma_grows_tr(before.vals(), emitted(before.vals(), salt_ty(), Op::RegRead(k as u32)), m1.vals());
            lemma_grows_tr(before.vals(), m1.vals(), low.vals());
            lemma_grows_tr(br, before.vals(), low.vals());
            assert(old(low).pipes@[k as int].wsalt_port.0 == 2 + 3 * k);
            assert(comb_pipe(Comb::Merge, fan as nat, k as nat).1);
            assert(m2.vals()[empty.0 as int] == m2b[empty.0 as int]);
            assert(m2.vals()[m1.vals().len() as int] == m2b[m1.vals().len() as int]);
            assert(m1.vals()[rsalt_q.0 as int] == m2.vals()[rsalt_q.0 as int]);
            assert(offer_at(m2b, has, k as nat, (2 + 3 * k) as nat));
            lemma_grows_tr(m2b, m3.vals(), low.vals());
            lemma_offer_grows(m2b, low.vals(), has, k as nat, (2 + 3 * k) as nat);
            assert forall|j: int| 0 <= j < k implies offer_at(low.vals(), #[trigger] offered@[j], j as nat, (2 + 3 * j) as nat) by {
                lemma_offer_grows(before.vals(), low.vals(), offered@[j], j as nat, (2 + 3 * j) as nat);
            }
            // Input `k`'s item is the entry of its data word its read index picks.
            lemma_grows_tr(old(low).vals(), before.vals(), low.vals());
            assert(input_data(old(low).vals(), old(low).pipes@[k as int], k as int));
            let dv = old(low).pipes@[k as int].data_value->0;
            assert(low.vals()[dv.0 as int].op == old(low).vals()[dv.0 as int].op);
            assert(low.vals()[rsalt_q.0 as int].op == m1.vals()[rsalt_q.0 as int].op);
            assert(entry_of(low.vals(), item, *ty, (4 + 3 * k) as nat, k as nat));
            assert forall|j: int| 0 <= j < k implies entry_of(low.vals(), #[trigger] items@[j], *ty, (4 + 3 * j) as nat, j as nat) by {
                lemma_entry_grows(before.vals(), low.vals(), items@[j], *ty, (4 + 3 * j) as nat, j as nat);
            }
        }
        rsalts.push(rsalt_q);
        items.push(item);
        ridxs.push(ridx);
        offered.push(has);
        k = k + 1;
    }

    let fan_minus_one = (fan - 1) as u128;
    let bits = bits_for(fan_minus_one);
    let turn_w = if bits < 1 { 1 } else { bits };
    let turn_ty = Ty::UInt(turn_w);
    let turn_slot = fan + 3;
    let ghost b2 = *low;
    let turn = low.emit(turn_ty.clone(), Op::RegRead(turn_slot as u32));
    proof {
        lemma_emitted(b2.vals(), turn_ty, Op::RegRead(turn_slot as u32));
        assert forall|i: int| 0 <= i < low.vals().len() implies (#[trigger] low.vals()[i]).op matches Op::RegRead(r) ==> (r as nat) < slots by {
            if i < b2.vals().len() {
                assert(low.vals().subrange(0, b2.vals().len() as int)[i] == low.vals()[i]);
            }
        }
    }
    low.name_value_safe(turn, String::from_str("turn"));
    let ghost n2 = low.vals().len();
    let ghost per_k = (fan * (fan + 4) + fan + 2) as nat;
    let ghost bn2 = low.vals();
    proof {
        lemma_grows_tr(b2.vals(), emitted(b2.vals(), turn_ty, Op::RegRead(turn_slot as u32)), bn2);
        assert(bn2[turn.0 as int].op == Op::RegRead((fan + 3) as u32));
    }

    let mut grants: Vec<ValueId> = Vec::new();
    let mut k: usize = 0;
    while k < fan
        invariant
            builder_ok(*low, slots),
            1 <= fan <= 2000,
            low.ports_view() == old(low).ports_view(),
            low.pipes@.len() == fan + 1,
            k <= fan,
            offered@.len() == fan,
            forall|j: int| 0 <= j < fan ==> vid_ok(#[trigger] offered@[j], n2),
            vid_ok(turn, n2),
            grants@.len() == k,
            forall|j: int| 0 <= j < k ==> vid_ok(#[trigger] grants@[j], low.vals().len()),
            n2 <= low.vals().len(),
            bn2.len() == n2,
            grows(bn2, low.vals()),
            (turn.0 as int) < n2,
            ports_kept(low.pipes@, old(low).pipes@),
            forall|j: int, leaf: spec_fn(ValueId) -> int| #![trigger computed(low.vals(), n2, leaf, grants@[j])]
                0 <= j < k && leaves_fit(low.vals(), n2, leaf) ==>
                (computed(low.vals(), n2, leaf, grants@[j]) != 0 <==> first_from_turn(leaf, j, fan as int, turn, offered@)),
            side_ok(side, n1),
            vid_ok(room, n1),
            n1 <= n2,
            items@.len() == fan,
            forall|j: int| 0 <= j < fan ==> vid_ok(#[trigger] items@[j], n2),
            rsalts@.len() == fan && ridxs@.len() == fan,
            forall|j: int| 0 <= j < fan ==> vid_ok(#[trigger] rsalts@[j], n2),
            forall|j: int| 0 <= j < fan ==> vid_ok(#[trigger] ridxs@[j], n2),
            low.vals().len() <= n2 + k * per_k,
            per_k == fan * (fan + 4) + fan + 2,
            n2 <= n0 + 10 * fan + 12,
            n0 <= fan + 3,
            budget == merge_budget(fan as nat),
            budget + fan + 3 < 0x1_0000_0000 - 1,
        decreases fan - k,
    {
        proof { lemma_mul_step(k as nat, fan as nat, per_k); }
        let ghost before = *low;
        let g = grant_for(low, k, fan, turn, &turn_ty, &offered);
        proof { lemma_regs_read_below_grows(before.vals(), low.vals(), slots); }
        grants.push(g);
        proof {
            lemma_grows_tr(bn2, before.vals(), low.vals());
            assert forall|j: int, leaf: spec_fn(ValueId) -> int| #![trigger computed(low.vals(), n2, leaf, grants@[j])]
                0 <= j < k + 1 && leaves_fit(low.vals(), n2, leaf) implies
                (computed(low.vals(), n2, leaf, grants@[j]) != 0 <==> first_from_turn(leaf, j, fan as int, turn, offered@)) by {
                lemma_leaves_fit_back(before.vals(), low.vals(), n2, leaf);
                if j < k {
                    lemma_computed_grows(before.vals(), low.vals(), n2, leaf, grants@[j]);
                } else {
                    lemma_first_from_turn(low.vals(), n2, leaf, k as int, fan as int, turn, offered@);
                }
            }
        }
        k = k + 1;
    }
    let ghost n3 = low.vals().len();
    proof {
        assert(n3 <= n2 + fan * per_k);
    }

    let ghost b3 = *low;
    let granted = crate::ir_fsm::any_of(low, grants.as_slice());
    let ghost b4 = *low;
    let push = low.emit(bool_type(), Op::Bin { op: BinOp::And, lhs: granted, rhs: room });
    proof {
        lemma_emitted(b4.vals(), bool_ty(), Op::Bin { op: BinOp::And, lhs: granted, rhs: room });
        lemma_grows_trans(b3.vals(), b4.vals(), low.vals());
        lemma_regs_read_below_grows(b3.vals(), low.vals(), slots);
    }
    low.name_value_safe(push, String::from_str("push"));
    let ghost n3b = low.vals().len();
    let ghost bp = low.vals();
    proof {
        // `push`: some input is granted and the output has room.
        let bpe = emitted(b4.vals(), bool_ty(), Op::Bin { op: BinOp::And, lhs: granted, rhs: room });
        lemma_grows_tr(b4.vals(), bpe, bp);
        lemma_grows_tr(b3.vals(), b4.vals(), bp);
        assert forall|leaf: spec_fn(ValueId) -> int| #[trigger] leaves_fit(bp, n2, leaf) implies
            (computed(bp, n2, leaf, push) != 0 <==> leaf(room) != 0
                && exists|j: int| 0 <= j < fan && #[trigger] computed(bp, n2, leaf, grants@[j]) != 0) by {
            lemma_leaves_fit_back(b3.vals(), bp, n2, leaf);
            lemma_leaves_fit_back(b4.vals(), bp, n2, leaf);
            lemma_or_chain(b3.vals(), n2, leaf, grants@);
            lemma_and_emitted(b4.vals(), n2, leaf, granted, room);
            lemma_computed_grows(bpe, bp, n2, leaf, push);
            assert(computed(b4.vals(), n2, leaf, room) == leaf(room));
            assert forall|j: int| #![trigger computed(bp, n2, leaf, grants@[j])] #![trigger computed(b3.vals(), n2, leaf, grants@[j])]
                0 <= j < fan implies computed(bp, n2, leaf, grants@[j]) == computed(b3.vals(), n2, leaf, grants@[j]) by {
                lemma_computed_grows(b3.vals(), bp, n2, leaf, grants@[j]);
            }
        }
    }

    // The item of whichever input was granted. Only one grant is ever high,
    // so the order of the mux chain does not matter.
    proof {
        lemma_grows_tr(b3.vals(), b4.vals(), bp);
        lemma_grows_tr(bn2, b3.vals(), bp);
        lemma_grows_tr(b2.vals(), bn2, bp);
    }
    let mut item = items[0];
    let mut k: usize = 1;
    while k < fan
        invariant
            builder_ok(*low, slots),
            low.ports_view() == old(low).ports_view(),
            low.pipes@.len() == fan + 1,
            1 <= k <= fan,
            side_ok(side, n1),
            n1 <= n2,
            vid_ok(push, n3b),
            n3b <= low.vals().len(),
            fan <= 2000,
            items@.len() == fan,
            grants@.len() == fan,
            forall|j: int| 0 <= j < fan ==> vid_ok(#[trigger] items@[j], n3),
            forall|j: int| 0 <= j < fan ==> vid_ok(#[trigger] grants@[j], n3),
            vid_ok(item, low.vals().len()),
            n3 <= low.vals().len(),
            grows(bp, low.vals()),
            low.vals().len() <= n3 + fan + 2 + k,
            ports_kept(low.pipes@, old(low).pipes@),
            grows(b2.vals(), low.vals()),
            forall|j: int| 0 <= j < fan ==> entry_of(b2.vals(), #[trigger] items@[j], *ty, (4 + 3 * j) as nat, j as nat),
            picked(low.vals(), item, grants@, items@, k as nat),
            n3 <= n2 + fan * per_k,
            n2 <= n0 + 10 * fan + 12,
            n0 <= fan + 3,
            per_k == fan * (fan + 4) + fan + 2,
            budget == merge_budget(fan as nat),
            budget + fan + 3 < 0x1_0000_0000 - 1,
        decreases fan - k,
    {
        let ghost before = *low;
        let ghost prev = item;
        item = low.emit(ty.clone(), Op::Mux { cond: grants[k], then_val: items[k], else_val: item });
        proof {
            let mux = Op::Mux { cond: grants@[k as int], then_val: items@[k as int], else_val: prev };
            lemma_emitted(before.vals(), *ty, mux);
            lemma_regs_read_below_grows(before.vals(), low.vals(), slots);
            lemma_grows_tr(bp, before.vals(), low.vals());
            lemma_grows_tr(b2.vals(), before.vals(), low.vals());
            // An item is a mux, never the constant a fold would need.
            let it = items@[k as int];
            assert(before.vals()[it.0 as int].op == b2.vals()[it.0 as int].op);
            assert(crate::lowerer::emit_folds(before.vals(), *ty, mux) is None);
            lemma_picked_grows(before.vals(), low.vals(), prev, grants@, items@, k as nat);
            assert(picked(low.vals(), item, grants@, items@, (k + 1) as nat));
        }
        k = k + 1;
    }
    let ghost bit = low.vals();
    low.name_value_safe(item, String::from_str("item"));

    let mut out_regs: Vec<RegSlot> = Vec::new();
    let mut drivers: Vec<(PortId, ValueId)> = Vec::new();
    let ghost b5 = *low;
    proof {
        lemma_grows_tr(bp, bit, b5.vals());
        lemma_grows_tr(br, b2.vals(), bp);
        lemma_grows_tr(br, bp, b5.vals());
        lemma_side_regs_grows(br, b5.vals(), side, fan as nat);
    }
    push_out(low, out_ix, &side, item, push, &mut out_regs, &mut drivers);
    proof {
        lemma_regs_read_below_grows(b5.vals(), low.vals(), slots);
        assert(pipe_ok(low.pipes@[fan as int], low.vals().len(), np));
    }
    let ghost n4 = low.vals().len();
    let ghost bo = low.vals();
    proof {
        lemma_grows_tr(bp, b5.vals(), bo);
        lemma_grows_tr(b3.vals(), bp, bo);
        lemma_grows_tr(bn2, b3.vals(), bo);
        lemma_grows_tr(b2.vals(), bn2, bo);
        lemma_grows_tr(br, b2.vals(), bo);
        assert(bo[side.wsalt_q.0 as int].op == Op::RegRead((fan + 2) as u32));
        assert(steps_on(bo, out_regs@[2].3, (fan + 2) as nat, push));
        // The output's data and write-salt drivers, and its entries.
        lemma_side_regs_grows(br, bo, side, fan as nat);
        assert((drivers@[0].0).0 == 4 + 3 * fan);
        assert((drivers@[1].0).0 == 2 + 3 * fan);
        assert(loads(bo, n2, out_regs@[0].3, fan as nat, item, push, side.widx, false));
        assert(loads(bo, n2, out_regs@[1].3, (fan + 1) as nat, item, push, side.widx, true));
    }
    let ghost d0 = drivers@[0];
    let ghost d1 = drivers@[1];

    // Each input advances only on its own transfer.
    let mut in_regs: Vec<RegSlot> = Vec::new();
    let mut k: usize = 0;
    while k < fan
        invariant
            builder_ok(*low, slots),
            low.ports_view() == old(low).ports_view(),
            np == old(low).ports_view().len(),
            low.pipes@.len() == fan + 1,
            k <= fan,
            fan <= 2000,
            rsalts@.len() == fan && ridxs@.len() == fan && grants@.len() == fan,
            forall|j: int| 0 <= j < fan ==> vid_ok(#[trigger] rsalts@[j], n4),
            forall|j: int| 0 <= j < fan ==> vid_ok(#[trigger] ridxs@[j], n4),
            forall|j: int| 0 <= j < fan ==> vid_ok(#[trigger] grants@[j], n4),
            vid_ok(push, n4),
            in_regs@.len() == k,
            bo.len() == n4,
            n2 <= n4,
            grows(bo, low.vals()),
            grows(b2.vals(), bo),
            forall|j: int| 0 <= j < fan ==> ((#[trigger] rsalts@[j]).0 as int) < b2.vals().len()
                && b2.vals()[rsalts@[j].0 as int].op == Op::RegRead(j as u32),
            forall|j: int| 0 <= j < k ==> steps_on_both(low.vals(), n2, (#[trigger] in_regs@[j]).3, j as nat, grants@[j], push),
            ports_kept(low.pipes@, old(low).pipes@),
            comb_pipes_ok(*old(low), Comb::Merge, fan as nat, *ty),
            drivers@.len() == 2 + k,
            drivers@[0] == d0 && drivers@[1] == d1,
            forall|i: int| 2 <= i < drivers@.len() ==> (#[trigger] drivers@[i]).0 == PortId((3 + 3 * (i - 2)) as u32)
                && reads_reg(low.vals(), drivers@[i].1, (i - 2) as nat),
            forall|j: int| 0 <= j < k ==> (#[trigger] in_regs@[j]).0 == j && vid_ok(in_regs@[j].3, low.vals().len()),
            drivers_ok(drivers@, np, low.vals().len()),
            out_regs@.len() == 3,
            forall|j: int| 0 <= j < 3 ==> (#[trigger] out_regs@[j]).0 == fan + j && vid_ok(out_regs@[j].3, n4),
            n4 <= low.vals().len(),
            low.vals().len() <= n4 + 6 * k,
            n4 <= n3 + 2 * fan + 16,
            n3 <= n2 + fan * per_k,
            n2 <= n0 + 10 * fan + 12,
            n0 <= fan + 3,
            per_k == fan * (fan + 4) + fan + 2,
            budget == merge_budget(fan as nat),
            budget + fan + 3 < 0x1_0000_0000 - 1,
        decreases fan - k,
    {
        let ghost before = *low;
        let took = low.emit(bool_type(), Op::Bin { op: BinOp::And, lhs: grants[k], rhs: push });
        proof { lemma_emitted(before.vals(), bool_ty(), Op::Bin { op: BinOp::And, lhs: grants@[k as int], rhs: push }); }
        low.name_value_safe(took, numbered0("take", k));
        let ghost mid = *low;
        let next = low.salt_next(rsalts[k], ridxs[k], took);
        proof {
            lemma_grows_appended(mid.vals(), low.vals(), 5);
            lemma_grows_trans(before.vals(), mid.vals(), low.vals());
            lemma_regs_read_below_grows(before.vals(), low.vals(), slots);
            assert(pipe_ok(low.pipes@[k as int], low.vals().len(), np));
        }
        let ghost regs_before = in_regs@;
        in_regs.push((k, numbered("i", k, "_rsalt_q"), salt(), next));
        let ghost drivers_before = drivers@;
        drivers.push((low.pipes[k].rsalt_port, rsalts[k]));
        proof {
            assert forall|j: int| 0 <= j < k + 1 implies (#[trigger] in_regs@[j]).0 == j && vid_ok(in_regs@[j].3, low.vals().len()) by {
                if j < k {
                    assert(in_regs@[j] == regs_before[j]);
                }
            }
            // Input `k`'s read salt steps on its grant and `push`.
            let be = emitted(before.vals(), bool_ty(), Op::Bin { op: BinOp::And, lhs: grants@[k as int], rhs: push });
            lemma_appended_grows(mid.vals(), low.vals(), 5);
            lemma_grows_tr(be, mid.vals(), low.vals());
            lemma_grows_tr(before.vals(), be, low.vals());
            lemma_grows_tr(bo, before.vals(), low.vals());
            lemma_grows_tr(b2.vals(), bo, low.vals());
            assert(low.vals()[rsalts@[k as int].0 as int].op == Op::RegRead(k as u32));
            assert forall|leaf: spec_fn(ValueId) -> int| #[trigger] leaves_fit(low.vals(), n2, leaf) implies
                (computed(low.vals(), n2, leaf, took) != 0 <==> computed(low.vals(), n2, leaf, grants@[k as int]) != 0
                    && computed(low.vals(), n2, leaf, push) != 0) by {
                lemma_leaves_fit_back(before.vals(), low.vals(), n2, leaf);
                lemma_and_emitted(before.vals(), n2, leaf, grants@[k as int], push);
                lemma_computed_grows(be, low.vals(), n2, leaf, took);
                lemma_computed_grows(before.vals(), low.vals(), n2, leaf, grants@[k as int]);
                lemma_computed_grows(before.vals(), low.vals(), n2, leaf, push);
            }
            assert(steps_on_both(low.vals(), n2, next, k as nat, grants@[k as int], push));
            assert forall|j: int| 0 <= j < k + 1 implies steps_on_both(low.vals(), n2, (#[trigger] in_regs@[j]).3, j as nat, grants@[j], push) by {
                if j < k {
                    assert(in_regs@[j] == regs_before[j]);
                    lemma_steps_both_grows(before.vals(), low.vals(), n2, in_regs@[j].3, j as nat, grants@[j], push);
                }
            }
            assert forall|j: int| 0 <= j < drivers@.len() implies ((#[trigger] drivers@[j]).0.0 as nat) < np && vid_ok(drivers@[j].1, low.vals().len()) by {
                if j < drivers_before.len() {
                    assert(drivers@[j] == drivers_before[j]);
                }
            }
            assert(old(low).pipes@[k as int].rsalt_port.0 == 3 + 3 * k);
            assert forall|i: int| 2 <= i < drivers@.len() implies (#[trigger] drivers@[i]).0 == PortId((3 + 3 * (i - 2)) as u32)
                && reads_reg(low.vals(), drivers@[i].1, (i - 2) as nat) by {
                if i < drivers_before.len() {
                    assert(drivers@[i] == drivers_before[i]);
                    assert(low.vals()[drivers@[i].1.0 as int].op == before.vals()[drivers@[i].1.0 as int].op);
                }
            }
        }
        k = k + 1;
    }

    // Whoever went this time goes last next time.
    let mut turn_next = turn;
    let mut k: usize = 0;
    let ghost n5 = low.vals().len();
    let ghost bi = low.vals();
    while k < fan
        invariant
            builder_ok(*low, slots),
            low.ports_view() == old(low).ports_view(),
            low.pipes@.len() == fan + 1,
            k <= fan,
            1 <= fan <= 2000,
            grants@.len() == fan,
            forall|j: int| 0 <= j < fan ==> vid_ok(#[trigger] grants@[j], n5),
            vid_ok(room, n5),
            vid_ok(turn_next, low.vals().len()),
            n5 <= low.vals().len(),
            low.vals().len() <= n5 + 3 * k,
            n5 <= n4 + 6 * fan,
            n4 <= n3 + 2 * fan + 16,
            n3 <= n2 + fan * per_k,
            n2 <= n0 + 10 * fan + 12,
            n0 <= fan + 3,
            per_k == fan * (fan + 4) + fan + 2,
            budget == merge_budget(fan as nat),
            budget + fan + 3 < 0x1_0000_0000 - 1,
            grows(bi, low.vals()),
            bi.len() == n5,
            n2 <= n5,
            (turn.0 as int) < n2,
            (room.0 as int) < n2,
            bi[turn.0 as int].op == Op::RegRead((fan + 3) as u32),
            k == 0 ==> turn_next == turn,
            forall|leaf: spec_fn(ValueId) -> int| #[trigger] leaves_fit(low.vals(), n2, leaf) ==>
                computed(low.vals(), n2, leaf, turn_next) == turn_after(leaf, turn, went_in(bi, n2, leaf, grants@, room, fan as int),
                    fan as int, k as int),
        decreases fan - k,
    {
        let ghost before = *low;
        let next_turn = ((k + 1) % fan) as u128;
        let after = low.emit(turn_ty.clone(), Op::Const(next_turn));
        proof { lemma_emitted(before.vals(), turn_ty, Op::Const(next_turn)); }
        let ghost m = *low;
        let took = low.emit(bool_type(), Op::Bin { op: BinOp::And, lhs: grants[k], rhs: room });
        proof { lemma_emitted(m.vals(), bool_ty(), Op::Bin { op: BinOp::And, lhs: grants@[k as int], rhs: room }); lemma_grows_trans(before.vals(), m.vals(), low.vals()); }
        let ghost m2 = *low;
        let ghost prev = turn_next;
        turn_next = low.emit(turn_ty.clone(), Op::Mux { cond: took, then_val: after, else_val: turn_next });
        proof {
            lemma_emitted(m2.vals(), turn_ty, Op::Mux { cond: took, then_val: after, else_val: turn_next });
            lemma_grows_trans(before.vals(), m2.vals(), low.vals());
            lemma_grows_tr(bi, before.vals(), low.vals());
            lemma_regs_read_below_grows(before.vals(), low.vals(), slots);
            let mux = Op::Mux { cond: took, then_val: after, else_val: prev };
            lemma_emitted(m2.vals(), turn_ty, mux);
            lemma_emitted(before.vals(), turn_ty, Op::Const(next_turn));
            lemma_grows_tr(bi, before.vals(), m.vals());
            // The turn is a register, never the constant a fold would need.
            assert(crate::lowerer::emit_folds(m2.vals(), turn_ty, mux) is None) by {
                if k + 1 < fan {
                    vstd::arithmetic::div_mod::lemma_small_mod((k + 1) as nat, fan as nat);
                } else {
                    vstd::arithmetic::div_mod::lemma_mod_self_0(fan as int);
                }
                if next_turn == 1 {
                    assert(k == 0);
                    assert(m2.vals()[turn.0 as int].op == bi[turn.0 as int].op);
                }
            }
            assert forall|leaf: spec_fn(ValueId) -> int| #[trigger] leaves_fit(low.vals(), n2, leaf) implies
                computed(low.vals(), n2, leaf, turn_next) == turn_after(leaf, turn, went_in(bi, n2, leaf, grants@, room, fan as int),
                    fan as int, k + 1) by {
                lemma_leaves_fit_back(before.vals(), low.vals(), n2, leaf);
                lemma_leaves_fit_back(m.vals(), low.vals(), n2, leaf);
                lemma_and_emitted(m.vals(), n2, leaf, grants@[k as int], room);
                lemma_computed_grows(m2.vals(), low.vals(), n2, leaf, took);
                lemma_computed_grows(before.vals(), low.vals(), n2, leaf, prev);
                lemma_computed_grows(m.vals(), low.vals(), n2, leaf, after);
                lemma_computed_grows(bi, m.vals(), n2, leaf, grants@[k as int]);
                assert(computed(m.vals(), n2, leaf, after) == next_turn);
                assert(computed(m.vals(), n2, leaf, room) == leaf(room));
            }
        }
        k = k + 1;
    }

    let mut regs = in_regs;
    let ghost r1 = regs@;
    let ghost outs = out_regs@;
    regs.append(&mut out_regs);
    let ghost r2 = regs@;
    regs.push((turn_slot, String::from_str("turn"), turn_ty, turn_next));
    proof {
        assert forall|j: int| 0 <= j < regs@.len() implies (#[trigger] regs@[j]).0 == j && vid_ok(regs@[j].3, low.vals().len()) by {
            if j < fan {
                assert(regs@[j] == r1[j]);
            } else if j < fan + 3 {
                assert(regs@[j] == r2[j]);
            }
        }
        lemma_drivers_ok_grow(drivers@, np, n5, low.vals().len());
        // What the merge does each cycle, now over the finished values.
        let fin = low.vals();
        let nexts = slot_nexts(regs@);
        lemma_grows_tr(bo, bi, fin);
        lemma_grows_tr(bp, bo, fin);
        lemma_grows_tr(b3.vals(), bp, fin);
        lemma_grows_tr(bn2, b3.vals(), fin);
        lemma_grows_tr(b2.vals(), bn2, fin);
        lemma_grows_tr(br, b2.vals(), fin);
        assert forall|j: int| 0 <= j < fan implies ((#[trigger] offered@[j]).0 as int) < n2
            && offer_at(fin, offered@[j], j as nat, (2 + 3 * j) as nat) by {
            lemma_offer_grows(b2.vals(), fin, offered@[j], j as nat, (2 + 3 * j) as nat);
        }
        assert forall|j: int, leaf: spec_fn(ValueId) -> int| #![trigger computed(fin, n2, leaf, grants@[j])]
            0 <= j < fan && leaves_fit(fin, n2, leaf) implies
            (computed(fin, n2, leaf, grants@[j]) != 0 <==> first_from_turn(leaf, j, fan as int, turn, offered@)) by {
            lemma_leaves_fit_back(b3.vals(), fin, n2, leaf);
            lemma_computed_grows(b3.vals(), fin, n2, leaf, grants@[j]);
        }
        lemma_room_grows(br, fin, room, (fan + 2) as nat, (3 + 3 * fan) as nat);
        assert forall|leaf: spec_fn(ValueId) -> int| #[trigger] leaves_fit(fin, n2, leaf) implies
            (computed(fin, n2, leaf, push) != 0 <==> leaf(room) != 0
                && exists|j: int| 0 <= j < fan && #[trigger] computed(fin, n2, leaf, grants@[j]) != 0) by {
            lemma_leaves_fit_back(bp, fin, n2, leaf);
            lemma_computed_grows(bp, fin, n2, leaf, push);
            assert forall|j: int| #![trigger computed(bp, n2, leaf, grants@[j])] #![trigger computed(fin, n2, leaf, grants@[j])]
                0 <= j < fan implies computed(bp, n2, leaf, grants@[j]) == computed(fin, n2, leaf, grants@[j]) by {
                lemma_computed_grows(bp, fin, n2, leaf, grants@[j]);
            }
        }
        assert(nexts[fan + 2int] == outs[2].3);
        lemma_steps_grows(bo, fin, outs[2].3, (fan + 2) as nat, push);
        assert forall|j: int| 0 <= j < fan implies steps_on_both(fin, n2, #[trigger] nexts[j], j as nat, grants@[j], push) by {
            assert(nexts[j] == r1[j].3);
            lemma_steps_both_grows(bi, fin, n2, r1[j].3, j as nat, grants@[j], push);
        }
        assert(nexts[fan + 3int] == turn_next);
        assert forall|leaf: spec_fn(ValueId) -> int| #[trigger] leaves_fit(fin, n2, leaf) implies
            computed(fin, n2, leaf, nexts[fan + 3int]) == turn_after(leaf, turn, went_in(fin, n2, leaf, grants@, room, fan as int),
                fan as int, fan as int) by {
            assert forall|j: int| #[trigger] went_in(bi, n2, leaf, grants@, room, fan as int)(j)
                == went_in(fin, n2, leaf, grants@, room, fan as int)(j) by {
                if 0 <= j < fan {
                    lemma_computed_grows(bi, fin, n2, leaf, grants@[j]);
                }
            }
            assert(went_in(bi, n2, leaf, grants@, room, fan as int) =~= went_in(fin, n2, leaf, grants@, room, fan as int));
        }
        // The drivers, and where the forwarded item comes from.
        let drv = drivers@;
        assert forall|j: int| 0 <= j < fan implies entry_of(fin, #[trigger] items@[j], *ty, (4 + 3 * j) as nat, j as nat) by {
            lemma_entry_grows(b2.vals(), fin, items@[j], *ty, (4 + 3 * j) as nat, j as nat);
        }
        lemma_grows_tr(bit, b5.vals(), fin);
        lemma_picked_grows(bit, fin, item, grants@, items@, fan as nat);
        assert(nexts[fan as int] == outs[0].3);
        assert(nexts[fan + 1int] == outs[1].3);
        lemma_pair_grows(bo, fin, d0.1, fan as nat);
        assert(fin[d1.1.0 as int].op == bo[d1.1.0 as int].op);
        lemma_index_grows(bo, fin, side.widx, (fan + 2) as nat);
        lemma_loads_grows(bo, fin, n2, outs[0].3, fan as nat, item, push, side.widx, false);
        lemma_loads_grows(bo, fin, n2, outs[1].3, (fan + 1) as nat, item, push, side.widx, true);
        assert(output_at(fin, n2, drv, nexts, 0, fan as nat, fan as nat, item, push, side.widx));
        assert forall|i: int| 2 <= i < drv.len() implies (#[trigger] drv[i]).0 == PortId((3 + 3 * (i - 2)) as u32)
            && reads_reg(fin, drv[i].1, (i - 2) as nat) by {
            assert(fin[drv[i].1.0 as int].op == bi[drv[i].1.0 as int].op);
        }
        assert(merge_parts(fin, nexts, drv, fan as nat, *ty, n2, turn, offered@, grants@, room, push, item, items@, side.widx));
    }
    (regs, drivers)
}

/// Turns reserved register slots, already in slot order, into registers
/// that reset to zero.
pub fn into_regs(slots: Vec<RegSlot>) -> (regs: Vec<Reg>)
    ensures
        regs@.len() == slots@.len(),
        forall|j: int|
            0 <= j < regs@.len() ==> (#[trigger] regs@[j]).name@ == slots@[j].1@ && regs@[j].ty == slots@[j].2
                && regs@[j].next == slots@[j].3 && regs@[j].reset == 0,
{
    let mut regs: Vec<Reg> = Vec::new();
    let mut i: usize = 0;
    while i < slots.len()
        invariant
            i <= slots@.len(),
            regs@.len() == i,
            forall|j: int|
                0 <= j < i ==> (#[trigger] regs@[j]).name@ == slots@[j].1@ && regs@[j].ty == slots@[j].2
                    && regs@[j].next == slots@[j].3 && regs@[j].reset == 0,
        decreases slots@.len() - i,
    {
        regs.push(Reg { name: slots[i].1.clone(), ty: slots[i].2.clone(), reset: 0, next: slots[i].3 });
        i = i + 1;
    }
    regs
}

/// Assembles a module from a builder and what its body produced.
///
/// The module has no memories, assertions, parameters, nets, instances or
/// calls: a combinator or an adapter is a datapath and its registers.
pub fn assemble(low: Lowerer, name: String, regs: Vec<RegSlot>, drivers: Vec<(PortId, ValueId)>) -> (m: Module)
    requires
        builder_ok(low, regs@.len()),
        slots_in_order(regs@, regs@.len(), low.vals().len()),
        drivers_ok(drivers@, low.ports_view().len(), low.vals().len()),
    ensures
        module_wf(m),
        m.name == name,
        m.ports@ == low.ports_view(),
        m.values@ == low.vals(),
        m.drivers@ == drivers@,
        m.regs@.len() == regs@.len(),
        forall|j: int| 0 <= j < m.regs@.len() ==> (#[trigger] m.regs@[j]).reset == 0 && m.regs@[j].next == regs@[j].3
            && m.regs@[j].name@ == regs@[j].1@,
        m.mems@.len() == 0 && m.asserts@.len() == 0 && m.params@.len() == 0,
        m.nets@.len() == 0 && m.instances@.len() == 0 && m.calls@.len() == 0,
{
    let ghost nv = low.vals().len();
    let ghost np = low.ports_view().len();
    let ghost rs = regs@;
    let regs = into_regs(regs);
    let (values, ports) = low.take_values();
    let m = Module {
        calls: Vec::new(),
        name,
        ports,
        values,
        drivers,
        regs,
        mems: Vec::new(),
        asserts: Vec::new(),
        params: Vec::new(),
        nets: Vec::new(),
        instances: Vec::new(),
    };
    proof {
        assert forall|j: int| 0 <= j < m.regs@.len() implies crate::ir::vid_ok((#[trigger] m.regs@[j]).next, nv) by {
            assert(vid_ok(rs[j].3, nv));
        }
    }
    m
}

/// The number of register slots a combinator reserves: an `rsalt` for each
/// input, three for each output, and the merge's `turn`.
pub open spec fn comb_slots(kind: Comb, fan: nat) -> nat {
    match kind {
        Comb::Merge => fan + 4,
        Comb::Split => 1 + 3 * fan,
    }
}

/// Builds one combinator module.
///
/// The module is well formed: every value names only earlier values, every
/// driver, register and register read refers to something that exists. A
/// `@split` takes from its input exactly when the input has an item and every
/// output has room; a `@merge` grants the first offering input counting from
/// `turn`, and pushes exactly when one is granted and its output has room.
pub fn build(kind: Comb, fan: usize, ty: &Ty) -> (m: Module)
    requires
        // Every combinator reads an input's item out of its data word with
        // `hi: width - 1`, which has no value for a zero-width type.
        1 <= width(*ty),
        2 * width(*ty) <= u32::MAX,
        kind == Comb::Merge ==> 1 <= fan && merge_budget(fan as nat) + fan + 3 < u32::MAX,
        kind == Comb::Split ==> split_budget(fan as nat) <= u32::MAX,
    ensures
        module_wf(m),
        m.name@ == comb_name(kind, fan as nat, width(*ty)),
        m.ports@.len() == 2 + 3 * (fan + 1),
        m.ports@[0].name@ == "clk"@,
        m.ports@[1].name@ == "rst_n"@,
        forall|j: int| 0 <= j < fan + 1 ==> crate::lowerer::pipe_ports(m.ports@, (2 + 3 * j) as nat,
            #[trigger] comb_pipe(kind, fan as nat, j as nat).0, *ty, comb_pipe(kind, fan as nat, j as nat).1),
        m.regs@.len() == comb_slots(kind, fan as nat),
        forall|j: int| 0 <= j < m.regs@.len() ==> (#[trigger] m.regs@[j]).reset == 0,
        m.mems@.len() == 0 && m.asserts@.len() == 0 && m.params@.len() == 0,
        m.nets@.len() == 0 && m.instances@.len() == 0 && m.calls@.len() == 0,
        kind == Comb::Split ==> split_core_in(m.values@, reg_nexts(m.regs@), m.drivers@, fan as nat, *ty),
        kind == Comb::Merge ==> merge_core_in(m.values@, reg_nexts(m.regs@), m.drivers@, fan as nat, *ty),
{
    let mut low = declare_comb_pipes(kind, fan, ty);
    let ghost ports = low.ports_view();
    proof {
        assert(regs_read_below(low.vals(), comb_slots(kind, fan as nat))) by {
            assert forall|i: int| 0 <= i < low.vals().len() implies (#[trigger] low.vals()[i]).op matches Op::RegRead(r)
                ==> (r as nat) < comb_slots(kind, fan as nat) by {
            }
        }
    }
    let (regs, drivers) = match kind {
        Comb::Split => build_split(&mut low, fan, ty),
        Comb::Merge => build_merge(&mut low, fan, ty),
    };
    let name = module_name(kind, fan, ty);
    let ghost vals = low.vals();
    let ghost rs = regs@;
    let m = assemble(low, name, regs, drivers);
    proof {
        assert(reg_nexts(m.regs@) =~= slot_nexts(rs));
    }
    m
}

/// A combinator's name is its shape: two with one name are the same kind,
/// fan and width, so one module serves every use of that shape and no two
/// shapes share one.
pub proof fn law_comb_name_is_the_shape(k1: Comb, f1: nat, w1: nat, k2: Comb, f2: nat, w2: nat)
    requires
        comb_name(k1, f1, w1) == comb_name(k2, f2, w2),
    ensures
        k1 == k2,
        f1 == f2,
        w1 == w2,
{
    reveal_strlit("ddl_");
    reveal_strlit("merge");
    reveal_strlit("split");
    reveal_strlit("_");
    let s = comb_name(k1, f1, w1);
    assert(s[4] == comb_what(k1)[0]);
    assert(s[4] == comb_what(k2)[0]);
    assert(k1 == k2);
    let p = "ddl_"@ + comb_what(k1) + "_"@;
    let r1 = dec(f1) + "x"@ + dec(w1);
    let r2 = dec(f2) + "x"@ + dec(w2);
    assert(s =~= p + r1);
    assert(comb_name(k2, f2, w2) =~= p + r2);
    assert(r1 =~= s.skip(p.len() as int));
    assert(r2 =~= s.skip(p.len() as int));
    crate::text::lemma_split_at_x(f1, w1, f2, w2);
}

} // verus!
