// A module as text, for `--emit=ir`.
//
// The point is to be able to see what the compiler decided BEFORE the
// backend folds expressions together: which values became registers, where
// the pipeline cut, what the write port of each memory ended up carrying.

use vstd::prelude::*;
use crate::ir::{Module, Op, BinOp, CmpOp, UnOp, PortDir, WritePort, ValueDef, Port, Net, Instance, Memory, Reg, Assertion};
use crate::ty::{Ty, ty_text, mem_kind_text};
use crate::text::{dec, push_decimal, push_decimal_wide, push_char};

verus! {

pub open spec fn bin_name(b: BinOp) -> Seq<char> {
    match b {
        BinOp::Add => "Add"@,
        BinOp::Sub => "Sub"@,
        BinOp::Mul => "Mul"@,
        BinOp::Div => "Div"@,
        BinOp::Mod => "Mod"@,
        BinOp::Shl => "Shl"@,
        BinOp::Shr => "Shr"@,
        BinOp::And => "And"@,
        BinOp::Or => "Or"@,
        BinOp::Xor => "Xor"@,
    }
}

pub open spec fn compare_name(c: CmpOp) -> Seq<char> {
    match c {
        CmpOp::Eq => "Eq"@,
        CmpOp::Ne => "Ne"@,
        CmpOp::Lt => "Lt"@,
        CmpOp::Gt => "Gt"@,
        CmpOp::Le => "Le"@,
        CmpOp::Ge => "Ge"@,
    }
}

pub open spec fn un_name(u: UnOp) -> Seq<char> {
    match u {
        UnOp::BitNot => "BitNot"@,
        UnOp::Neg => "Neg"@,
        UnOp::LogNot => "LogNot"@,
    }
}

/// The dump tells binary operators apart: two operators with one name are
/// the same operator.
pub proof fn law_bin_names_distinct(a: BinOp, b: BinOp)
    requires
        bin_name(a) == bin_name(b),
    ensures
        a == b,
{
    reveal_strlit("Add"); reveal_strlit("Sub"); reveal_strlit("Mul"); reveal_strlit("Div");
    reveal_strlit("Mod"); reveal_strlit("Shl"); reveal_strlit("Shr"); reveal_strlit("And");
    reveal_strlit("Or"); reveal_strlit("Xor");
    let (x, y) = (bin_name(a), bin_name(b));
    assert(x.len() == y.len());
    assert(x[0] == y[0]);
    assert(x[1] == y[1]);
    if x.len() > 2 {
        assert(x[2] == y[2]);
    }
}

/// The dump tells comparisons apart.
pub proof fn law_compare_names_distinct(a: CmpOp, b: CmpOp)
    requires
        compare_name(a) == compare_name(b),
    ensures
        a == b,
{
    reveal_strlit("Eq"); reveal_strlit("Ne"); reveal_strlit("Lt"); reveal_strlit("Gt");
    reveal_strlit("Le"); reveal_strlit("Ge");
    let (x, y) = (compare_name(a), compare_name(b));
    assert(x.len() == y.len());
    assert(x[0] == y[0]);
    assert(x[1] == y[1]);
}

/// The dump tells unary operators apart.
pub proof fn law_un_names_distinct(a: UnOp, b: UnOp)
    requires
        un_name(a) == un_name(b),
    ensures
        a == b,
{
    reveal_strlit("BitNot"); reveal_strlit("Neg"); reveal_strlit("LogNot");
    let (x, y) = (un_name(a), un_name(b));
    assert(x.len() == y.len());
    assert(x[0] == y[0]);
}

fn bin_str(b: BinOp) -> (r: &'static str)
    ensures
        r@ == bin_name(b),
{
    match b {
        BinOp::Add => "Add",
        BinOp::Sub => "Sub",
        BinOp::Mul => "Mul",
        BinOp::Div => "Div",
        BinOp::Mod => "Mod",
        BinOp::Shl => "Shl",
        BinOp::Shr => "Shr",
        BinOp::And => "And",
        BinOp::Or => "Or",
        BinOp::Xor => "Xor",
    }
}

fn compare_str(c: CmpOp) -> (r: &'static str)
    ensures
        r@ == compare_name(c),
{
    match c {
        CmpOp::Eq => "Eq",
        CmpOp::Ne => "Ne",
        CmpOp::Lt => "Lt",
        CmpOp::Gt => "Gt",
        CmpOp::Le => "Le",
        CmpOp::Ge => "Ge",
    }
}

fn un_str(u: UnOp) -> (r: &'static str)
    ensures
        r@ == un_name(u),
{
    match u {
        UnOp::BitNot => "BitNot",
        UnOp::Neg => "Neg",
        UnOp::LogNot => "LogNot",
    }
}

/// `%<n>`.
pub open spec fn vref(n: u32) -> Seq<char> {
    "%"@ + dec(n as nat)
}

/// Numbers joined by commas.
pub open spec fn joined_nums(ns: Seq<u32>) -> Seq<char>
    decreases ns.len(),
{
    if ns.len() == 0 {
        Seq::empty()
    } else {
        joined_nums(ns.drop_last()) + (if ns.len() > 1 { ","@ } else { Seq::empty() }) + dec(ns.last() as nat)
    }
}

/// `%a, %b, ...`.
pub open spec fn joined_refs(ns: Seq<u32>) -> Seq<char>
    decreases ns.len(),
{
    if ns.len() == 0 {
        Seq::empty()
    } else {
        joined_refs(ns.drop_last()) + (if ns.len() > 1 { ", "@ } else { Seq::empty() }) + vref(ns.last())
    }
}

/// Labels joined by `|`.
pub open spec fn joined_labels(ls: Seq<u128>) -> Seq<char>
    decreases ls.len(),
{
    if ls.len() == 0 {
        Seq::empty()
    } else {
        joined_labels(ls.drop_last()) + (if ls.len() > 1 { "|"@ } else { Seq::empty() }) + dec(ls.last() as nat)
    }
}

/// ` [l1|l2 -> %v]` for each arm.
pub open spec fn case_arms(arms: Seq<(Vec<u128>, crate::ir::ValueId)>) -> Seq<char>
    decreases arms.len(),
{
    if arms.len() == 0 {
        Seq::empty()
    } else {
        case_arms(arms.drop_last()) + " ["@ + joined_labels(arms.last().0@) + " -> "@ + vref(arms.last().1.0) + "]"@
    }
}

/// The name of register `ix`, or `?` when there is none.
pub open spec fn reg_name(m: Module, ix: u32) -> Seq<char> {
    if (ix as int) < m.regs@.len() {
        m.regs@[ix as int].name@
    } else {
        "?"@
    }
}

/// One operation as `--emit=ir` spells it.
pub open spec fn op_text(m: Module, op: Op) -> Seq<char> {
    match op {
        Op::Port(p) => "port "@ + m.ports@[p.0 as int].name@,
        Op::RegRead(ix) => "reg "@ + reg_name(m, ix),
        Op::Const(k) => "const "@ + dec(k as nat),
        Op::Bin { op, lhs, rhs } => bin_name(op) + " "@ + vref(lhs.0) + ", "@ + vref(rhs.0),
        Op::Cmp { op, lhs, rhs } => compare_name(op) + " "@ + vref(lhs.0) + ", "@ + vref(rhs.0),
        Op::Un { op, arg } => un_name(op) + " "@ + vref(arg.0),
        Op::Slice { arg, hi, lo } => "slice "@ + vref(arg.0) + "["@ + dec(hi as nat) + ":"@ + dec(lo as nat) + "]"@,
        Op::DynSlice { arg, base, width } => "dynslice "@ + vref(arg.0) + "["@ + vref(base.0) + " +: "@ + dec(width as nat) + "]"@,
        Op::Concat(parts) => "concat "@ + joined_refs(parts@.map_values(|v: crate::ir::ValueId| v.0)),
        Op::Repeat { arg, times } => "repeat "@ + vref(arg.0) + " x"@ + dec(times as nat),
        Op::ZExt { arg, to } => "zext "@ + vref(arg.0) + " to "@ + dec(to as nat),
        Op::SExt { arg, to } => "sext "@ + vref(arg.0) + " to "@ + dec(to as nat),
        Op::Trunc { arg, to } => "trunc "@ + vref(arg.0) + " to "@ + dec(to as nat),
        Op::Cast { arg } => "cast "@ + vref(arg.0),
        Op::Mux { cond, then_val, else_val } => "mux "@ + vref(cond.0) + " ? "@ + vref(then_val.0) + " : "@ + vref(else_val.0),
        Op::Case { scrutinee, arms, default } => "case "@ + vref(scrutinee.0) + case_arms(arms@) + " [_ -> "@ + vref(default.0) + "]"@,
        Op::MemReadReg { mem, port } => "memq #"@ + dec(mem as nat) + "."@ + dec(port as nat),
        Op::MemRead { mem, addr } => "memread "@ + m.mems@[mem as int].name@ + "["@ + vref(addr.0) + "]"@,
    }
}

/// What `render_module` can read without running off an edge: every port
/// and memory an operation or a driver names exists.
pub open spec fn refs_ok(m: Module) -> bool {
    &&& forall|i: int| #![trigger m.values@[i]] 0 <= i < m.values@.len() ==> match m.values@[i].op {
        Op::Port(p) => (p.0 as int) < m.ports@.len(),
        Op::MemRead { mem, .. } => (mem as int) < m.mems@.len(),
        _ => true,
    }
    &&& forall|j: int| 0 <= j < m.drivers@.len() ==> ((#[trigger] m.drivers@[j]).0.0 as int) < m.ports@.len()
}

fn push_ref(out: &mut String, n: u32)
    ensures
        final(out)@ == old(out)@ + vref(n),
{
    out.append("%");
    push_decimal(out, n as u64);
}

/// The text of one operation.
#[verifier::spinoff_prover]
#[verifier::rlimit(40)]
fn push_op(out: &mut String, m: &Module, op: &Op)
    requires
        match *op {
            Op::Port(p) => (p.0 as int) < m.ports@.len(),
            Op::MemRead { mem, .. } => (mem as int) < m.mems@.len(),
            _ => true,
        },
    ensures
        final(out)@ == old(out)@ + op_text(*m, *op),
{
    let ghost o = old(out)@;
    match op {
        Op::Port(p) => {
            out.append("port ");
            out.append(m.ports[p.0 as usize].name.as_str());
        },
        Op::RegRead(ix) => {
            out.append("reg ");
            if (*ix as usize) < m.regs.len() {
                out.append(m.regs[*ix as usize].name.as_str());
            } else {
                out.append("?");
            }
        },
        Op::Const(k) => {
            out.append("const ");
            push_decimal_wide(out, *k);
        },
        Op::Bin { op, lhs, rhs } => {
            out.append(bin_str(*op));
            out.append(" ");
            push_ref(out, lhs.0);
            out.append(", ");
            push_ref(out, rhs.0);
        },
        Op::Cmp { op, lhs, rhs } => {
            out.append(compare_str(*op));
            out.append(" ");
            push_ref(out, lhs.0);
            out.append(", ");
            push_ref(out, rhs.0);
        },
        Op::Un { op, arg } => {
            out.append(un_str(*op));
            out.append(" ");
            push_ref(out, arg.0);
        },
        Op::Slice { arg, hi, lo } => {
            out.append("slice ");
            push_ref(out, arg.0);
            out.append("[");
            push_decimal(out, *hi as u64);
            out.append(":");
            push_decimal(out, *lo as u64);
            out.append("]");
        },
        Op::DynSlice { arg, base, width } => {
            out.append("dynslice ");
            push_ref(out, arg.0);
            out.append("[");
            push_ref(out, base.0);
            out.append(" +: ");
            push_decimal(out, *width as u64);
            out.append("]");
        },
        Op::Concat(parts) => {
            out.append("concat ");
            let ghost ids = parts@.map_values(|v: crate::ir::ValueId| v.0);
            let ghost base = out@;
            let mut i: usize = 0;
            while i < parts.len()
                invariant
                    i <= parts@.len(),
                    ids == parts@.map_values(|v: crate::ir::ValueId| v.0),
                    out@ == base + joined_refs(ids.take(i as int)),
                decreases parts@.len() - i,
            {
                proof {
                    assert(ids.take(i + 1).drop_last() =~= ids.take(i as int));
                    assert(ids.take(i + 1).last() == parts@[i as int].0);
                }
                if i > 0 {
                    out.append(", ");
                }
                push_ref(out, parts[i].0);
                i = i + 1;
            }
            proof {
                assert(ids.take(i as int) =~= ids);
            }
        },
        Op::Repeat { arg, times } => {
            out.append("repeat ");
            push_ref(out, arg.0);
            out.append(" x");
            push_decimal(out, *times as u64);
        },
        Op::ZExt { arg, to } => {
            out.append("zext ");
            push_ref(out, arg.0);
            out.append(" to ");
            push_decimal(out, *to as u64);
        },
        Op::SExt { arg, to } => {
            out.append("sext ");
            push_ref(out, arg.0);
            out.append(" to ");
            push_decimal(out, *to as u64);
        },
        Op::Trunc { arg, to } => {
            out.append("trunc ");
            push_ref(out, arg.0);
            out.append(" to ");
            push_decimal(out, *to as u64);
        },
        Op::Cast { arg } => {
            out.append("cast ");
            push_ref(out, arg.0);
        },
        Op::Mux { cond, then_val, else_val } => {
            out.append("mux ");
            push_ref(out, cond.0);
            out.append(" ? ");
            push_ref(out, then_val.0);
            out.append(" : ");
            push_ref(out, else_val.0);
        },
        Op::Case { scrutinee, arms, default } => {
            out.append("case ");
            push_ref(out, scrutinee.0);
            let ghost base = out@;
            let mut i: usize = 0;
            while i < arms.len()
                invariant
                    i <= arms@.len(),
                    out@ == base + case_arms(arms@.take(i as int)),
                decreases arms@.len() - i,
            {
                proof {
                    assert(arms@.take(i + 1).drop_last() =~= arms@.take(i as int));
                }
                out.append(" [");
                let labels = &arms[i].0;
                let ghost lb = out@;
                let mut j: usize = 0;
                while j < labels.len()
                    invariant
                        j <= labels@.len(),
                        out@ == lb + joined_labels(labels@.take(j as int)),
                    decreases labels@.len() - j,
                {
                    proof {
                        assert(labels@.take(j + 1).drop_last() =~= labels@.take(j as int));
                    }
                    if j > 0 {
                        out.append("|");
                    }
                    push_decimal_wide(out, labels[j]);
                    j = j + 1;
                }
                proof {
                    assert(labels@.take(j as int) =~= labels@);
                }
                out.append(" -> ");
                push_ref(out, arms[i].1.0);
                out.append("]");
                i = i + 1;
            }
            proof {
                assert(arms@.take(i as int) =~= arms@);
            }
            out.append(" [_ -> ");
            push_ref(out, default.0);
            out.append("]");
        },
        Op::MemReadReg { mem, port } => {
            out.append("memq #");
            push_decimal(out, *mem as u64);
            out.append(".");
            push_decimal(out, *port as u64);
        },
        Op::MemRead { mem, addr } => {
            out.append("memread ");
            out.append(m.mems[*mem as usize].name.as_str());
            out.append("[");
            push_ref(out, addr.0);
            out.append("]");
        },
    }
}

/// The character of one hex digit, lower case.
pub open spec fn hex_char(d: nat) -> char {
    if d < 10 {
        crate::text::digit_char(d)
    } else if d == 10 {
        'a'
    } else if d == 11 {
        'b'
    } else if d == 12 {
        'c'
    } else if d == 13 {
        'd'
    } else if d == 14 {
        'e'
    } else {
        'f'
    }
}

/// `n` in hexadecimal, no leading zeros.
pub open spec fn hex(n: nat) -> Seq<char>
    decreases n,
{
    if n < 16 {
        seq![hex_char(n)]
    } else {
        hex(n / 16).push(hex_char(n % 16))
    }
}

/// How std's `char::escape_debug` writes a character: the character itself
/// where it is printable, `\u{..}` where it is not or extends a grapheme.
/// Named rather than written out: the answer rests on std's Unicode tables.
pub uninterp spec fn escaped_char(c: char) -> Seq<char>;

/// std's `char::escape_debug`, collected into a `String`. The contract claims
/// only that the text is the one `escaped_char` names for `c`. For a
/// character beyond ASCII this is also what `{:?}` on a string writes for it.
#[verifier::external_body]
fn escape_debug_char(c: char) -> (r: String)
    ensures
        r@ == escaped_char(c),
{
    c.escape_debug().to_string()
}

/// One character inside a string as `{:?}` shows it.
pub open spec fn dbg_char(c: char) -> Seq<char> {
    if c == '\t' {
        "\\t"@
    } else if c == '\r' {
        "\\r"@
    } else if c == '\n' {
        "\\n"@
    } else if c == '\\' {
        "\\\\"@
    } else if c == '"' {
        "\\\""@
    } else if c == '\0' {
        "\\0"@
    } else if c < ' ' || c == '\x7f' {
        "\\u{"@ + hex((c as u32) as nat) + "}"@
    } else if c > '\x7f' {
        escaped_char(c)
    } else {
        seq![c]
    }
}

pub open spec fn dbg_chars(s: Seq<char>) -> Seq<char>
    decreases s.len(),
{
    if s.len() == 0 {
        Seq::empty()
    } else {
        dbg_chars(s.drop_last()) + dbg_char(s.last())
    }
}

/// A string as `{:?}` shows it: quoted, with quotes, backslashes and
/// control characters escaped, and each character beyond ASCII as std
/// escapes it.
pub open spec fn dbg_str(s: Seq<char>) -> Seq<char> {
    "\""@ + dbg_chars(s) + "\""@
}

fn hex_str(d: u32) -> (r: &'static str)
    requires
        d < 16,
    ensures
        r@ == seq![hex_char(d as nat)],
{
    proof {
        reveal_strlit("0"); reveal_strlit("1"); reveal_strlit("2"); reveal_strlit("3");
        reveal_strlit("4"); reveal_strlit("5"); reveal_strlit("6"); reveal_strlit("7");
        reveal_strlit("8"); reveal_strlit("9"); reveal_strlit("a"); reveal_strlit("b");
        reveal_strlit("c"); reveal_strlit("d"); reveal_strlit("e"); reveal_strlit("f");
    }
    if d == 0 { "0" } else if d == 1 { "1" } else if d == 2 { "2" } else if d == 3 { "3" }
    else if d == 4 { "4" } else if d == 5 { "5" } else if d == 6 { "6" } else if d == 7 { "7" }
    else if d == 8 { "8" } else if d == 9 { "9" } else if d == 10 { "a" } else if d == 11 { "b" }
    else if d == 12 { "c" } else if d == 13 { "d" } else if d == 14 { "e" } else { "f" }
}

fn push_hex(out: &mut String, n: u32)
    ensures
        final(out)@ == old(out)@ + hex(n as nat),
    decreases n,
{
    if n < 16 {
        out.append(hex_str(n));
    } else {
        push_hex(out, n / 16);
        out.append(hex_str(n % 16));
    }
}

/// Appends a string as `{:?}` shows it.
fn push_debug(out: &mut String, s: &str)
    ensures
        final(out)@ == old(out)@ + dbg_str(s@),
{
    let ghost base = old(out)@;
    out.append("\"");
    let ghost b1 = out@;
    for c in it: s.chars()
        invariant
            it.seq() == s@,
            out@ == b1 + dbg_chars(s@.take(it.index() as int)),
    {
        proof {
            assert(s@.take(it.index() + 1).drop_last() =~= s@.take(it.index() as int));
            assert(s@.take(it.index() + 1).last() == c);
        }
        if c == '\t' {
            out.append("\\t");
        } else if c == '\r' {
            out.append("\\r");
        } else if c == '\n' {
            out.append("\\n");
        } else if c == '\\' {
            out.append("\\\\");
        } else if c == '"' {
            out.append("\\\"");
        } else if c == '\0' {
            out.append("\\0");
        } else if c < ' ' || c == '\x7f' {
            out.append("\\u{");
            push_hex(out, c as u32);
            out.append("}");
        } else if c > '\x7f' {
            let e = escape_debug_char(c);
            out.append(e.as_str());
        } else {
            push_char(out, c);
        }
    }
    proof {
        assert(s@.take(s@.len() as int) =~= s@);
    }
    out.append("\"");
}

pub open spec fn dir_text(d: PortDir) -> Seq<char> {
    match d {
        PortDir::In => "in "@,
        PortDir::Out => "out"@,
    }
}

pub open spec fn port_lines(ps: Seq<Port>) -> Seq<char>
    decreases ps.len(),
{
    if ps.len() == 0 {
        Seq::empty()
    } else {
        let p = ps.last();
        port_lines(ps.drop_last()) + "  port  #"@ + dec((ps.len() - 1) as nat) + " "@ + dir_text(p.dir) + " "@ + p.name@
            + " : "@ + ty_text(p.ty) + "\n"@
    }
}

pub open spec fn net_lines(ns: Seq<Net>) -> Seq<char>
    decreases ns.len(),
{
    if ns.len() == 0 {
        Seq::empty()
    } else {
        net_lines(ns.drop_last()) + "  net   "@ + ns.last().name@ + " : "@ + ty_text(ns.last().ty) + "\n"@
    }
}

pub open spec fn conn_lines(cs: Seq<(String, String)>) -> Seq<char>
    decreases cs.len(),
{
    if cs.len() == 0 {
        Seq::empty()
    } else {
        conn_lines(cs.drop_last()) + "          ."@ + cs.last().0@ + " = "@ + cs.last().1@ + "\n"@
    }
}

pub open spec fn inst_lines(is: Seq<Instance>) -> Seq<char>
    decreases is.len(),
{
    if is.len() == 0 {
        Seq::empty()
    } else {
        let i = is.last();
        inst_lines(is.drop_last()) + "  inst  "@ + i.name@ + " : "@ + i.module@ + "\n"@ + conn_lines(i.conns@)
    }
}

pub open spec fn reset_text(r: Option<u128>) -> Seq<char> {
    match r {
        Some(k) => "reset="@ + dec(k as nat),
        None => "no reset"@,
    }
}

pub open spec fn we_ids(ws: Seq<WritePort>) -> Seq<u32> {
    ws.map_values(|w: WritePort| w.we.0)
}

pub open spec fn addr_ids(ws: Seq<WritePort>) -> Seq<u32> {
    ws.map_values(|w: WritePort| w.addr.0)
}

pub open spec fn data_ids(ws: Seq<WritePort>) -> Seq<u32> {
    ws.map_values(|w: WritePort| w.data.0)
}

pub open spec fn mem_line(m: Memory) -> Seq<char> {
    "  mem   "@ + m.name@ + " : ["@ + ty_text(m.elem) + "; "@ + dec(m.len as nat) + "] "@ + mem_kind_text(m.kind)
        + " addr:"@ + dec(m.addr_width as nat) + "b "@ + reset_text(m.reset) + " we=%"@ + joined_nums(we_ids(m.write@))
        + " addr=%"@ + joined_nums(addr_ids(m.write@)) + " data=%"@ + joined_nums(data_ids(m.write@)) + "\n"@
}

pub open spec fn mem_lines(ms: Seq<Memory>) -> Seq<char>
    decreases ms.len(),
{
    if ms.len() == 0 {
        Seq::empty()
    } else {
        mem_lines(ms.drop_last()) + mem_line(ms.last())
    }
}

/// Register `ix`: its name, type, reset value and next-state value.
pub open spec fn reg_line(ix: nat, r: Reg) -> Seq<char> {
    "  reg   #"@ + dec(ix) + " "@ + r.name@ + " : "@ + ty_text(r.ty) + " reset="@ + dec(r.reset as nat) + " next=%"@
        + dec(r.next.0 as nat) + "\n"@
}

pub open spec fn reg_lines(rs: Seq<Reg>) -> Seq<char>
    decreases rs.len(),
{
    if rs.len() == 0 {
        Seq::empty()
    } else {
        reg_lines(rs.drop_last()) + reg_line((rs.len() - 1) as nat, rs.last())
    }
}

pub open spec fn value_lines(m: Module, vs: Seq<ValueDef>) -> Seq<char>
    decreases vs.len(),
{
    if vs.len() == 0 {
        Seq::empty()
    } else {
        let d = vs.last();
        value_lines(m, vs.drop_last()) + "  %"@ + dec(d.id.0 as nat) + " : "@ + ty_text(d.ty) + " = "@ + op_text(m, d.op)
            + (match d.name {
            Some(n) => "  ; "@ + n@,
            None => Seq::empty(),
        }) + "\n"@
    }
}

pub open spec fn driver_lines(m: Module, ds: Seq<(crate::ir::PortId, crate::ir::ValueId)>) -> Seq<char>
    decreases ds.len(),
{
    if ds.len() == 0 {
        Seq::empty()
    } else {
        driver_lines(m, ds.drop_last()) + "  drive "@ + m.ports@[ds.last().0.0 as int].name@ + " = %"@ + dec(ds.last().1.0 as nat) + "\n"@
    }
}

pub open spec fn assert_lines(asserts: Seq<Assertion>) -> Seq<char>
    decreases asserts.len(),
{
    if asserts.len() == 0 {
        Seq::empty()
    } else {
        let a = asserts.last();
        assert_lines(asserts.drop_last()) + "  "@ + (if a.is_fatal { "fatal "@ } else { "assert"@ }) + " %"@
            + dec(a.cond.0 as nat) + " "@ + dbg_str(a.message@) + "\n"@
    }
}

/// The whole of `--emit=ir` for one module: its header, ports, nets,
/// instances, memories and registers, a blank line, every value in order,
/// then the drivers of the outputs (after a blank line when there are any)
/// and the assertions.
pub open spec fn module_text(m: Module) -> Seq<char> {
    "module "@ + m.name@ + "\n"@ + port_lines(m.ports@) + net_lines(m.nets@) + inst_lines(m.instances@) + mem_lines(m.mems@)
        + reg_lines(m.regs@) + "\n"@ + value_lines(m, m.values@) + (if m.drivers@.len() > 0 { "\n"@ } else { Seq::empty() })
        + driver_lines(m, m.drivers@) + assert_lines(m.asserts@)
}

fn push_ids(out: &mut String, ws: &Vec<WritePort>, field: u8)
    requires
        field < 3,
    ensures
        final(out)@ == old(out)@ + joined_nums(if field == 0 { we_ids(ws@) } else if field == 1 { addr_ids(ws@) } else { data_ids(ws@) }),
{
    let ghost ids = if field == 0 { we_ids(ws@) } else if field == 1 { addr_ids(ws@) } else { data_ids(ws@) };
    let ghost base = out@;
    let mut i: usize = 0;
    while i < ws.len()
        invariant
            i <= ws@.len(),
            field < 3,
            ids == (if field == 0 { we_ids(ws@) } else if field == 1 { addr_ids(ws@) } else { data_ids(ws@) }),
            out@ == base + joined_nums(ids.take(i as int)),
        decreases ws@.len() - i,
    {
        proof {
            assert(ids.take(i + 1).drop_last() =~= ids.take(i as int));
        }
        if i > 0 {
            out.append(",");
        }
        let w = ws[i];
        let id = if field == 0 { w.we.0 } else if field == 1 { w.addr.0 } else { w.data.0 };
        push_decimal(out, id as u64);
        i = i + 1;
    }
    proof {
        assert(ids.take(i as int) =~= ids);
    }
}

fn push_reg(out: &mut String, ix: usize, r: &Reg)
    ensures
        final(out)@ == old(out)@ + reg_line(ix as nat, *r),
{
    out.append("  reg   #");
    push_decimal(out, ix as u64);
    out.append(" ");
    out.append(r.name.as_str());
    out.append(" : ");
    out.append(r.ty.display().as_str());
    out.append(" reset=");
    push_decimal_wide(out, r.reset);
    out.append(" next=%");
    push_decimal(out, r.next.0 as u64);
    out.append("\n");
    proof {
        assert(out@ =~= old(out)@ + reg_line(ix as nat, *r));
    }
}

fn push_mem(out: &mut String, mem: &Memory)
    ensures
        final(out)@ == old(out)@ + mem_line(*mem),
{
    out.append("  mem   ");
    out.append(mem.name.as_str());
    out.append(" : [");
    out.append(mem.elem.display().as_str());
    out.append("; ");
    push_decimal(out, mem.len as u64);
    out.append("] ");
    out.append(mem.kind.display().as_str());
    out.append(" addr:");
    push_decimal(out, mem.addr_width as u64);
    out.append("b ");
    match mem.reset {
        Some(k) => {
            out.append("reset=");
            push_decimal_wide(out, k);
        },
        None => {
            out.append("no reset");
        },
    }
    out.append(" we=%");
    push_ids(out, &mem.write, 0);
    out.append(" addr=%");
    push_ids(out, &mem.write, 1);
    out.append(" data=%");
    push_ids(out, &mem.write, 2);
    out.append("\n");
}

fn push_port_lines(out: &mut String, ports: &Vec<Port>)
    ensures
        final(out)@ == old(out)@ + port_lines(ports@),
{
    let ghost b = out@;
    let mut i: usize = 0;
    while i < ports.len()
        invariant
            i <= ports@.len(),
            out@ == b + port_lines(ports@.take(i as int)),
        decreases ports@.len() - i,
    {
        proof {
            assert(ports@.take(i + 1).drop_last() =~= ports@.take(i as int));
        }
        let p = &ports[i];
        out.append("  port  #");
        push_decimal(out, i as u64);
        out.append(" ");
        out.append(match p.dir {
            PortDir::In => "in ",
            PortDir::Out => "out",
        });
        out.append(" ");
        out.append(p.name.as_str());
        out.append(" : ");
        out.append(p.ty.display().as_str());
        out.append("\n");
        i = i + 1;
    }
    proof {
        assert(ports@.take(i as int) =~= ports@);
    }
}

fn push_net_lines(out: &mut String, nets: &Vec<Net>)
    ensures
        final(out)@ == old(out)@ + net_lines(nets@),
{
    let ghost b = out@;
    let mut i: usize = 0;
    while i < nets.len()
        invariant
            i <= nets@.len(),
            out@ == b + net_lines(nets@.take(i as int)),
        decreases nets@.len() - i,
    {
        proof {
            assert(nets@.take(i + 1).drop_last() =~= nets@.take(i as int));
        }
        out.append("  net   ");
        out.append(nets[i].name.as_str());
        out.append(" : ");
        out.append(nets[i].ty.display().as_str());
        out.append("\n");
        i = i + 1;
    }
    proof {
        assert(nets@.take(i as int) =~= nets@);
    }
}

fn push_inst(out: &mut String, inst: &Instance)
    ensures
        final(out)@ == old(out)@ + "  inst  "@ + inst.name@ + " : "@ + inst.module@ + "\n"@ + conn_lines(inst.conns@),
{
    out.append("  inst  ");
    out.append(inst.name.as_str());
    out.append(" : ");
    out.append(inst.module.as_str());
    out.append("\n");
    let ghost c0 = out@;
    let mut j: usize = 0;
    while j < inst.conns.len()
        invariant
            j <= inst.conns@.len(),
            out@ == c0 + conn_lines(inst.conns@.take(j as int)),
        decreases inst.conns@.len() - j,
    {
        proof {
            assert(inst.conns@.take(j + 1).drop_last() =~= inst.conns@.take(j as int));
        }
        out.append("          .");
        out.append(inst.conns[j].0.as_str());
        out.append(" = ");
        out.append(inst.conns[j].1.as_str());
        out.append("\n");
        j = j + 1;
    }
    proof {
        assert(inst.conns@.take(j as int) =~= inst.conns@);
    }
}

fn push_inst_lines(out: &mut String, insts: &Vec<Instance>)
    ensures
        final(out)@ == old(out)@ + inst_lines(insts@),
{
    let ghost b = out@;
    let mut i: usize = 0;
    while i < insts.len()
        invariant
            i <= insts@.len(),
            out@ == b + inst_lines(insts@.take(i as int)),
        decreases insts@.len() - i,
    {
        proof {
            assert(insts@.take(i + 1).drop_last() =~= insts@.take(i as int));
        }
        push_inst(out, &insts[i]);
        i = i + 1;
    }
    proof {
        assert(insts@.take(i as int) =~= insts@);
    }
}

fn push_mem_lines(out: &mut String, mems: &Vec<Memory>)
    ensures
        final(out)@ == old(out)@ + mem_lines(mems@),
{
    let ghost b = out@;
    let mut i: usize = 0;
    while i < mems.len()
        invariant
            i <= mems@.len(),
            out@ == b + mem_lines(mems@.take(i as int)),
        decreases mems@.len() - i,
    {
        proof {
            assert(mems@.take(i + 1).drop_last() =~= mems@.take(i as int));
        }
        push_mem(out, &mems[i]);
        i = i + 1;
    }
    proof {
        assert(mems@.take(i as int) =~= mems@);
    }
}

fn push_reg_lines(out: &mut String, regs: &Vec<Reg>)
    ensures
        final(out)@ == old(out)@ + reg_lines(regs@),
{
    let ghost b = out@;
    let mut i: usize = 0;
    while i < regs.len()
        invariant
            i <= regs@.len(),
            out@ == b + reg_lines(regs@.take(i as int)),
        decreases regs@.len() - i,
    {
        proof {
            assert(regs@.take(i + 1).drop_last() =~= regs@.take(i as int));
            assert(reg_lines(regs@.take(i + 1)) == reg_lines(regs@.take(i as int)) + reg_line(i as nat, regs@[i as int]));
        }
        push_reg(out, i, &regs[i]);
        i = i + 1;
    }
    proof {
        assert(regs@.take(i as int) =~= regs@);
    }
}

fn push_value_lines(out: &mut String, m: &Module)
    requires
        refs_ok(*m),
    ensures
        final(out)@ == old(out)@ + value_lines(*m, m.values@),
{
    let ghost b = out@;
    let mut i: usize = 0;
    while i < m.values.len()
        invariant
            i <= m.values@.len(),
            refs_ok(*m),
            out@ == b + value_lines(*m, m.values@.take(i as int)),
        decreases m.values@.len() - i,
    {
        proof {
            assert(m.values@.take(i + 1).drop_last() =~= m.values@.take(i as int));
        }
        let d = &m.values[i];
        out.append("  %");
        push_decimal(out, d.id.0 as u64);
        out.append(" : ");
        out.append(d.ty.display().as_str());
        out.append(" = ");
        push_op(out, m, &d.op);
        match &d.name {
            Some(n) => {
                out.append("  ; ");
                out.append(n.as_str());
            },
            None => {},
        }
        out.append("\n");
        i = i + 1;
    }
    proof {
        assert(m.values@.take(i as int) =~= m.values@);
    }
}

fn push_driver_lines(out: &mut String, m: &Module)
    requires
        refs_ok(*m),
    ensures
        final(out)@ == old(out)@ + driver_lines(*m, m.drivers@),
{
    let ghost b = out@;
    let mut i: usize = 0;
    while i < m.drivers.len()
        invariant
            i <= m.drivers@.len(),
            refs_ok(*m),
            out@ == b + driver_lines(*m, m.drivers@.take(i as int)),
        decreases m.drivers@.len() - i,
    {
        proof {
            assert(m.drivers@.take(i + 1).drop_last() =~= m.drivers@.take(i as int));
        }
        let (port, value) = m.drivers[i];
        out.append("  drive ");
        out.append(m.port(port).name.as_str());
        out.append(" = %");
        push_decimal(out, value.0 as u64);
        out.append("\n");
        i = i + 1;
    }
    proof {
        assert(m.drivers@.take(i as int) =~= m.drivers@);
    }
}

fn push_assert_lines(out: &mut String, asserts: &Vec<Assertion>)
    ensures
        final(out)@ == old(out)@ + assert_lines(asserts@),
{
    let ghost b = out@;
    let mut i: usize = 0;
    while i < asserts.len()
        invariant
            i <= asserts@.len(),
            out@ == b + assert_lines(asserts@.take(i as int)),
        decreases asserts@.len() - i,
    {
        proof {
            assert(asserts@.take(i + 1).drop_last() =~= asserts@.take(i as int));
        }
        let a = &asserts[i];
        out.append("  ");
        out.append(if a.is_fatal { "fatal " } else { "assert" });
        out.append(" %");
        push_decimal(out, a.cond.0 as u64);
        out.append(" ");
        push_debug(out, a.message.as_str());
        out.append("\n");
        i = i + 1;
    }
    proof {
        assert(asserts@.take(i as int) =~= asserts@);
    }
}

/// Renders one module as text; see `module_text`.
pub fn render_module(m: &Module) -> (out: String)
    requires
        refs_ok(*m),
    ensures
        out@ == module_text(*m),
{
    let mut out = String::from_str("module ");
    out.append(m.name.as_str());
    out.append("\n");
    push_port_lines(&mut out, &m.ports);
    push_net_lines(&mut out, &m.nets);
    push_inst_lines(&mut out, &m.instances);
    push_mem_lines(&mut out, &m.mems);
    push_reg_lines(&mut out, &m.regs);
    out.append("\n");
    push_value_lines(&mut out, m);
    if m.drivers.len() > 0 {
        out.append("\n");
    }
    push_driver_lines(&mut out, m);
    push_assert_lines(&mut out, &m.asserts);
    out
}

} // verus!
