// The clock-domain crossing, as modules the compiler EMITS rather than lowers.
//
// A crossing has registers on two clocks. Lowering one into IR would mean
// teaching `Reg` which clock it belongs to -- a change to the shape of every
// module in the compiler, in service of one module that never varies.
//
// So the crossing itself is a fixed reviewed file, written out verbatim, and
// what IS generated is a thin shell per shape, twenty lines of obvious
// Verilog, holding the three things a wrapper cannot: the parameter override,
// one AND gate of handshake glue, and the reset handshake instance.

use vstd::prelude::*;
use crate::text::{dec, push_decimal, lemma_split_at_x};
use crate::ty::two_to;

verus! {

/// Which way a crossing faces, and who drives the handshake on each side.
#[derive(Debug, Clone, Copy, PartialEq, Eq, Structural)]
pub enum Cdc {
    /// An export target's `buffer in`: the outside writes, DDL consumes.
    In,
    /// An export target's `buffer out`: DDL produces, the outside reads.
    Out,
    /// An `extern`'s `buffer in`: DDL sends, the extern consumes.
    ToExtern,
    /// An `extern`'s `buffer out`: the extern produces, DDL consumes.
    FromExtern,
}

pub open spec fn cdc_at(is_input: bool, foreign: bool) -> Cdc {
    match (is_input, foreign) {
        (true, false) => Cdc::In,
        (false, false) => Cdc::Out,
        (true, true) => Cdc::ToExtern,
        (false, true) => Cdc::FromExtern,
    }
}

pub open spec fn cdc_what(kind: Cdc) -> Seq<char> {
    match kind {
        Cdc::In => "in"@,
        Cdc::Out => "out"@,
        Cdc::ToExtern => "to_ext"@,
        Cdc::FromExtern => "from_ext"@,
    }
}

impl Cdc {
    /// Which crossing belongs at one pipe, mirroring `Adapt::at`.
    pub fn at(is_input: bool, foreign: bool) -> (r: Cdc)
        ensures
            r == cdc_at(is_input, foreign),
    {
        match (is_input, foreign) {
            (true, false) => Cdc::In,
            (false, false) => Cdc::Out,
            (true, true) => Cdc::ToExtern,
            (false, true) => Cdc::FromExtern,
        }
    }

    fn what(&self) -> (r: &'static str)
        ensures
            r@ == cdc_what(*self),
    {
        match self {
            Cdc::In => "in",
            Cdc::Out => "out",
            Cdc::ToExtern => "to_ext",
            Cdc::FromExtern => "from_ext",
        }
    }
}

/// One crossing a boundary asked for: which way, how wide, how deep.
///
/// Keyed by shape and not by use: the dedup key has to be what the NAME is.
#[derive(Debug, Clone, Copy, PartialEq, Eq, Structural)]
pub struct CdcUse {
    pub kind: Cdc,
    pub width: u32,
    pub depth: u32,
}

/// `ddl_cdc_<what>_<width>x<depth>`.
pub open spec fn cdc_name(kind: Cdc, width: nat, depth: nat) -> Seq<char> {
    "ddl_cdc_"@ + cdc_what(kind) + "_"@ + dec(width) + "x"@ + dec(depth)
}

/// The shell's module name. Width and depth are both in it because both
/// change the module.
pub fn module_name(kind: Cdc, width: u32, depth: u32) -> (s: String)
    ensures
        s@ == cdc_name(kind, width as nat, depth as nat),
{
    let mut s = String::from_str("ddl_cdc_");
    s.append(kind.what());
    s.append("_");
    push_decimal(&mut s, width as u64);
    s.append("x");
    push_decimal(&mut s, depth as u64);
    s
}

/// The number of trailing zero bits of a 32-bit value; 32 for zero.
pub open spec fn tz(d: nat) -> nat
    decreases d,
{
    if d == 0 {
        32
    } else if d % 2 == 1 {
        0
    } else {
        1 + tz(d / 2)
    }
}

/// `log2(depth)`, which is what `ddl_cdc_fifo` takes. Depth is validated as a
/// power of two at least 4 before it reaches here.
pub fn addr_width(depth: u32) -> (aw: u32)
    ensures
        aw as nat == tz(depth as nat),
{
    if depth == 0 {
        return 32;
    }
    proof {
        reveal_with_fuel(two_to, 33);
        lemma_tz_below(depth as nat, 32);
    }
    let mut d = depth;
    let mut n: u32 = 0;
    while d % 2 == 0
        invariant
            d > 0,
            n + tz(d as nat) == tz(depth as nat),
            tz(depth as nat) < 32,
        decreases d,
    {
        d = d / 2;
        n = n + 1;
    }
    n
}

/// A nonzero value below `2^k` has fewer than `k` trailing zeros.
proof fn lemma_tz_below(x: nat, k: nat)
    requires
        0 < x < two_to(k),
    ensures
        tz(x) < k,
    decreases k,
{
    if x % 2 == 0 {
        if k == 0 {
        } else {
            assert(two_to(k) == 2 * two_to((k - 1) as nat));
            lemma_tz_below(x / 2, (k - 1) as nat);
        }
    } else {
        if k == 0 {
            assert(two_to(0) == 1);
        }
    }
}

/// Which side of the FIFO runs on which clock: `(wclk, wrst, rclk, rrst)`.
///
/// The write side sits on whichever clock the data comes FROM.
pub open spec fn fifo_clocks(kind: Cdc) -> (Seq<char>, Seq<char>, Seq<char>, Seq<char>) {
    if kind == Cdc::In || kind == Cdc::FromExtern {
        ("f_clk"@, "r_rst_n"@, "clk"@, "w_rst_n"@)
    } else {
        ("clk"@, "w_rst_n"@, "f_clk"@, "r_rst_n"@)
    }
}

pub open spec fn face_text(kind: Cdc, width: u32) -> Seq<char> {
    match kind {
        Cdc::In => ("    // foreign side: a slave write face, driven from f_clk\n    output        f_can_receive,\n    input         f_receive_en,\n    input  ["@ + dec((width - 1) as nat) + ":0] f_data_write_in,\n    // core side: a master write face into the adapter\n    input         c_can_receive,\n    output        c_receive_en,\n    output ["@ + dec((width - 1) as nat) + ":0] c_data_write_in\n"@),
        Cdc::Out => ("    // core side: a master read face pulling the adapter\n    input         c_has_data,\n    output        c_drop_item,\n    input  ["@ + dec((width - 1) as nat) + ":0] c_data_read_out,\n    // foreign side: a slave read face, read from f_clk\n    output        f_has_data,\n    input         f_drop_item,\n    output ["@ + dec((width - 1) as nat) + ":0] f_data_read_out\n"@),
        Cdc::ToExtern => ("    // core side: a slave write face, driven by the adapter\n    output        c_can_receive,\n    input         c_receive_en,\n    input  ["@ + dec((width - 1) as nat) + ":0] c_data_write_in,\n    // foreign side: a master write face into the extern\n    input         f_can_receive,\n    output        f_receive_en,\n    output ["@ + dec((width - 1) as nat) + ":0] f_data_write_in\n"@),
        Cdc::FromExtern => ("    // foreign side: a master read face reading the extern\n    input         f_has_data,\n    output        f_drop_item,\n    input  ["@ + dec((width - 1) as nat) + ":0] f_data_read_out,\n    // core side: a slave read face for the adapter to pull\n    output        c_has_data,\n    input         c_drop_item,\n    output ["@ + dec((width - 1) as nat) + ":0] c_data_read_out\n"@),
    }
}

/// Which face of a shell a handshake signal belongs to: `c_*` faces the
/// adapter DDL emits, `f_*` the foreign side.
#[derive(Debug, Clone, Copy, PartialEq, Eq, Structural)]
pub enum Side {
    Core,
    Foreign,
}

/// A handshake signal of one face.
#[derive(Debug, Clone, Copy, PartialEq, Eq, Structural)]
pub enum Face {
    ReceiveEn,
    DataWriteIn,
    CanReceive,
    DropItem,
    HasData,
    DataReadOut,
}

/// A signal of a shell: the FIFO's own, or one of a face's.
#[derive(Debug, Clone, Copy, PartialEq, Eq, Structural)]
pub enum Sig {
    Wpush,
    Wdata,
    Wfull,
    Rpop,
    Rdata,
    Rempty,
    At(Side, Face),
}

/// What a glue line assigns: a signal, its negation, `!a && b`, or `a && !b`.
#[derive(Debug, Clone, Copy, PartialEq, Eq, Structural)]
pub enum Rhs {
    Is(Sig),
    Not(Sig),
    NotAnd(Sig, Sig),
    AndNot(Sig, Sig),
}

/// A line of glue: an assignment, marked when it is the one gate of glue,
/// or a blank line between the write and the read half.
#[derive(Debug, Clone, Copy, PartialEq, Eq, Structural)]
pub enum Line {
    Assign(Sig, Rhs, bool),
    Blank,
}

pub open spec fn side_prefix(side: Side) -> Seq<char> {
    match side {
        Side::Core => "c_"@,
        Side::Foreign => "f_"@,
    }
}

pub open spec fn face_name(f: Face) -> Seq<char> {
    match f {
        Face::ReceiveEn => "receive_en"@,
        Face::DataWriteIn => "data_write_in"@,
        Face::CanReceive => "can_receive"@,
        Face::DropItem => "drop_item"@,
        Face::HasData => "has_data"@,
        Face::DataReadOut => "data_read_out"@,
    }
}

/// A face signal's name padded so the `=` of every assignment lines up.
pub open spec fn face_padded(f: Face) -> Seq<char> {
    match f {
        Face::ReceiveEn => "receive_en    "@,
        Face::DataWriteIn => "data_write_in "@,
        Face::CanReceive => "can_receive   "@,
        Face::DropItem => "drop_item     "@,
        Face::HasData => "has_data      "@,
        Face::DataReadOut => "data_read_out "@,
    }
}

pub open spec fn sig_name(x: Sig) -> Seq<char> {
    match x {
        Sig::Wpush => "wpush"@,
        Sig::Wdata => "wdata"@,
        Sig::Wfull => "wfull"@,
        Sig::Rpop => "rpop"@,
        Sig::Rdata => "rdata"@,
        Sig::Rempty => "rempty"@,
        Sig::At(side, f) => side_prefix(side) + face_name(f),
    }
}

pub open spec fn sig_padded(x: Sig) -> Seq<char> {
    match x {
        Sig::Wpush => "wpush           "@,
        Sig::Wdata => "wdata           "@,
        Sig::Wfull => "wfull           "@,
        Sig::Rpop => "rpop            "@,
        Sig::Rdata => "rdata           "@,
        Sig::Rempty => "rempty          "@,
        Sig::At(side, f) => side_prefix(side) + face_padded(f),
    }
}

pub open spec fn rhs_text(r: Rhs) -> Seq<char> {
    match r {
        Rhs::Is(a) => sig_name(a),
        Rhs::Not(a) => "!"@ + sig_name(a),
        Rhs::NotAnd(a, b) => "!"@ + sig_name(a) + " && "@ + sig_name(b),
        Rhs::AndNot(a, b) => sig_name(a) + " && !"@ + sig_name(b),
    }
}

/// How an assignment ends; the one gate of glue is marked as such.
pub open spec fn tail_text(r: Rhs, glue: bool) -> Seq<char> {
    if !glue {
        ";\n"@
    } else if r is NotAnd {
        ";   // the only glue\n"@
    } else {
        ";        // the only glue\n"@
    }
}

pub open spec fn line_text(l: Line) -> Seq<char> {
    match l {
        Line::Assign(lhs, r, glue) => "  assign "@ + sig_padded(lhs) + "= "@ + rhs_text(r) + tail_text(r, glue),
        Line::Blank => "\n"@,
    }
}

/// The lines of `ls` from `i` on.
pub open spec fn lines_text(ls: Seq<Line>, i: int) -> Seq<char>
    decreases ls.len() - i,
{
    if 0 <= i < ls.len() {
        line_text(ls[i]) + lines_text(ls, i + 1)
    } else {
        Seq::empty()
    }
}

/// `n` spaces.
pub open spec fn spaces(n: nat) -> Seq<char> {
    Seq::new(n, |i: int| ' ')
}

/// Every assignment lines its `=` up in one column: a padded signal name is
/// the name itself followed by spaces, sixteen characters in all.
pub proof fn law_padded_names_are_names(x: Sig)
    ensures
        sig_padded(x) == sig_name(x) + spaces((16 - sig_name(x).len()) as nat),
        sig_name(x).len() <= 15,
{
    reveal_strlit("wpush"); reveal_strlit("wdata"); reveal_strlit("wfull"); reveal_strlit("rpop");
    reveal_strlit("rdata"); reveal_strlit("rempty"); reveal_strlit("c_"); reveal_strlit("f_");
    reveal_strlit("receive_en"); reveal_strlit("data_write_in"); reveal_strlit("can_receive");
    reveal_strlit("drop_item"); reveal_strlit("has_data"); reveal_strlit("data_read_out");
    reveal_strlit("wpush           "); reveal_strlit("wdata           "); reveal_strlit("wfull           ");
    reveal_strlit("rpop            "); reveal_strlit("rdata           "); reveal_strlit("rempty          ");
    reveal_strlit("receive_en    "); reveal_strlit("data_write_in "); reveal_strlit("can_receive   ");
    reveal_strlit("drop_item     "); reveal_strlit("has_data      "); reveal_strlit("data_read_out ");
    assert(sig_padded(x) =~= sig_name(x) + spaces((16 - sig_name(x).len()) as nat));
}

/// Two signals with one name are the same signal.
pub proof fn law_signal_names_distinct(a: Sig, b: Sig)
    requires
        sig_name(a) == sig_name(b),
    ensures
        a == b,
{
    reveal_strlit("wpush"); reveal_strlit("wdata"); reveal_strlit("wfull"); reveal_strlit("rpop");
    reveal_strlit("rdata"); reveal_strlit("rempty"); reveal_strlit("c_"); reveal_strlit("f_");
    reveal_strlit("receive_en"); reveal_strlit("data_write_in"); reveal_strlit("can_receive");
    reveal_strlit("drop_item"); reveal_strlit("has_data"); reveal_strlit("data_read_out");
    let (x, y) = (sig_name(a), sig_name(b));
    assert(x.len() == y.len());
    assert(x[0] == y[0]);
    assert(x[1] == y[1]);
    assert(x[2] == y[2]);
    assert(x[3] == y[3]);
    if x.len() > 4 {
        assert(x[4] == y[4]);
    }
    if x.len() > 5 {
        assert(x[5] == y[5]);
    }
    if x.len() > 6 {
        assert(x[6] == y[6]);
    }
    if x.len() > 7 {
        assert(x[7] == y[7]);
    }
    if x.len() > 8 {
        assert(x[8] == y[8]);
    }
}

/// The glue of a shell whose reader receives: the writer's face feeds the
/// FIFO, and the reader is offered an item, and the FIFO popped, only when
/// the FIFO holds one and the reader can take it.
pub open spec fn receive_glue(w: Side, r: Side) -> Seq<Line> {
    seq![
        Line::Assign(Sig::Wpush, Rhs::Is(Sig::At(w, Face::ReceiveEn)), false),
        Line::Assign(Sig::Wdata, Rhs::Is(Sig::At(w, Face::DataWriteIn)), false),
        Line::Assign(Sig::At(w, Face::CanReceive), Rhs::Not(Sig::Wfull), false),
        Line::Blank,
        Line::Assign(Sig::At(r, Face::ReceiveEn), Rhs::NotAnd(Sig::Rempty, Sig::At(r, Face::CanReceive)), true),
        Line::Assign(Sig::At(r, Face::DataWriteIn), Rhs::Is(Sig::Rdata), false),
        Line::Assign(Sig::Rpop, Rhs::Is(Sig::At(r, Face::ReceiveEn)), false),
    ]
}

/// The glue of a shell whose writer is pulled: the writer's item is taken,
/// and the FIFO pushed, only when it has one and the FIFO has room, and the
/// reader's face shows what the FIFO holds and pops it.
pub open spec fn drop_glue(w: Side, r: Side) -> Seq<Line> {
    seq![
        Line::Assign(Sig::At(w, Face::DropItem), Rhs::AndNot(Sig::At(w, Face::HasData), Sig::Wfull), true),
        Line::Assign(Sig::Wpush, Rhs::Is(Sig::At(w, Face::DropItem)), false),
        Line::Assign(Sig::Wdata, Rhs::Is(Sig::At(w, Face::DataReadOut)), false),
        Line::Blank,
        Line::Assign(Sig::At(r, Face::HasData), Rhs::Not(Sig::Rempty), false),
        Line::Assign(Sig::At(r, Face::DataReadOut), Rhs::Is(Sig::Rdata), false),
        Line::Assign(Sig::Rpop, Rhs::Is(Sig::At(r, Face::DropItem)), false),
    ]
}

/// The glue of each shell.
pub open spec fn glue_lines(kind: Cdc) -> Seq<Line> {
    match kind {
        Cdc::In => receive_glue(Side::Foreign, Side::Core),
        Cdc::Out => drop_glue(Side::Core, Side::Foreign),
        Cdc::ToExtern => receive_glue(Side::Core, Side::Foreign),
        Cdc::FromExtern => drop_glue(Side::Foreign, Side::Core),
    }
}

pub open spec fn glue_text(kind: Cdc) -> Seq<char> {
    lines_text(glue_lines(kind), 0)
}

/// What the first assignment to `x` in `ls`, from `i` on, assigns it.
pub open spec fn driver(ls: Seq<Line>, i: int, x: Sig) -> Option<Rhs>
    decreases ls.len() - i,
{
    if 0 <= i < ls.len() {
        match ls[i] {
            Line::Assign(lhs, r, _) => if lhs == x { Some(r) } else { driver(ls, i + 1, x) },
            Line::Blank => driver(ls, i + 1, x),
        }
    } else {
        None
    }
}

/// The FIFO is popped only when it holds an item: `rpop` is a reader's
/// enable that is `!rempty && ..`, or the drop of a reader whose face is
/// offered an item exactly when the FIFO is not empty, and which drops only
/// what it is offered.
pub open spec fn pops_only_when_not_empty(ls: Seq<Line>) -> bool {
    match driver(ls, 0, Sig::Rpop) {
        Some(Rhs::Is(e)) => match driver(ls, 0, e) {
            Some(Rhs::NotAnd(a, _)) => a == Sig::Rempty,
            None => e matches Sig::At(side, f) && f == Face::DropItem
                && driver(ls, 0, Sig::At(side, Face::HasData)) == Some(Rhs::Not(Sig::Rempty)),
            _ => false,
        },
        _ => false,
    }
}

/// The FIFO is pushed only when it has room: `wpush` is a writer's drop that
/// is `.. && !wfull`, or the enable of a writer whose face may send exactly
/// when the FIFO is not full, and which sends only when it may.
pub open spec fn pushes_only_when_not_full(ls: Seq<Line>) -> bool {
    match driver(ls, 0, Sig::Wpush) {
        Some(Rhs::Is(e)) => match driver(ls, 0, e) {
            Some(Rhs::AndNot(_, b)) => b == Sig::Wfull,
            None => e matches Sig::At(side, f) && f == Face::ReceiveEn
                && driver(ls, 0, Sig::At(side, Face::CanReceive)) == Some(Rhs::Not(Sig::Wfull)),
            _ => false,
        },
        _ => false,
    }
}

/// In every shell the FIFO moves an item only when it can: it is popped
/// only when not empty and pushed only when not full, and each of its two
/// enables is driven exactly once.
pub proof fn law_the_fifo_moves_only_when_it_can(kind: Cdc)
    ensures
        pops_only_when_not_empty(glue_lines(kind)),
        pushes_only_when_not_full(glue_lines(kind)),
{
    reveal_with_fuel(driver, 8);
}

/// The text of one shell.
pub open spec fn head_text(kind: Cdc, width: u32, depth: u32) -> Seq<char> {
    ("// GENERATED. One clock-domain crossing, "@ + dec(width as nat) + " bits deep "@ + dec(depth as nat) + ".\n//\n// A parameter override, one AND gate of glue, and the reset handshake.\n// The crossing itself is `ddl_cdc_fifo`, which is a fixed reviewed file --\n// see its header, and docs/clock-domains.md.\nmodule "@ + cdc_name(kind, width as nat, depth as nat) + " (\n    input  clk,\n    input  rst_n,\n    input  f_clk,\n"@)
}

pub open spec fn rst_text() -> Seq<char> {
    ");\n\n  // Both halves leave zero together, at any clock ratio and however\n  // short the pulse on rst_n. See lib/ddl_rst_cross.v.\n  wire w_rst_n, r_rst_n;\n  ddl_rst_cross u_rst (\n      .clk(clk), .rst_n(rst_n), .f_clk(f_clk),\n      .w_rst_n(w_rst_n), .r_rst_n(r_rst_n)\n  );\n\n"@
}

pub open spec fn wires_text(width: u32) -> Seq<char> {
    ("  wire        wfull, rempty;\n  wire ["@ + dec((width - 1) as nat) + ":0] rdata;\n  wire        wpush, rpop;\n  wire ["@ + dec((width - 1) as nat) + ":0] wdata;\n\n"@)
}

pub open spec fn fifo_text(kind: Cdc, width: u32, depth: u32) -> Seq<char> {
    ("  ddl_cdc_fifo #(.WIDTH("@ + dec(width as nat) + "), .AW("@ + dec(tz(depth as nat)) + ")) u_fifo (\n      .wclk("@ + fifo_clocks(kind).0 + "), .wrst_n("@ + fifo_clocks(kind).1 + "), .wpush(wpush), .wdata(wdata), .wfull(wfull),\n      .rclk("@ + fifo_clocks(kind).2 + "), .rrst_n("@ + fifo_clocks(kind).3 + "), .rpop(rpop),   .rdata(rdata), .rempty(rempty)\n  );\n\n"@)
}

/// The text of one shell.
pub open spec fn shell_text(kind: Cdc, width: u32, depth: u32) -> Seq<char> {
    head_text(kind, width, depth) + face_text(kind, width) + rst_text() + wires_text(width) + fifo_text(kind, width, depth) + glue_text(kind) + "\nendmodule\n"@
}

fn shell_head(kind: Cdc, width: u32, depth: u32) -> (s: String)
    ensures
        s@ == head_text(kind, width, depth),
{
    let name = module_name(kind, width, depth);
    let mut s = String::from_str("// GENERATED. One clock-domain crossing, ");
    push_decimal(&mut s, width as u64);
    s.append(" bits deep ");
    push_decimal(&mut s, depth as u64);
    s.append(".\n//\n// A parameter override, one AND gate of glue, and the reset handshake.\n// The crossing itself is `ddl_cdc_fifo`, which is a fixed reviewed file --\n// see its header, and docs/clock-domains.md.\nmodule ");
    s.append(name.as_str());
    s.append(" (\n    input  clk,\n    input  rst_n,\n    input  f_clk,\n");
    s
}

fn push_face(s: &mut String, kind: Cdc, width: u32)
    requires
        width >= 1,
    ensures
        final(s)@ == old(s)@ + face_text(kind, width),
{
    let hi = width - 1;
    match kind {
        Cdc::In => {
        s.append("    // foreign side: a slave write face, driven from f_clk\n    output        f_can_receive,\n    input         f_receive_en,\n    input  [");
        push_decimal(s, hi as u64);
        s.append(":0] f_data_write_in,\n    // core side: a master write face into the adapter\n    input         c_can_receive,\n    output        c_receive_en,\n    output [");
        push_decimal(s, hi as u64);
        s.append(":0] c_data_write_in\n");
        },
        Cdc::Out => {
        s.append("    // core side: a master read face pulling the adapter\n    input         c_has_data,\n    output        c_drop_item,\n    input  [");
        push_decimal(s, hi as u64);
        s.append(":0] c_data_read_out,\n    // foreign side: a slave read face, read from f_clk\n    output        f_has_data,\n    input         f_drop_item,\n    output [");
        push_decimal(s, hi as u64);
        s.append(":0] f_data_read_out\n");
        },
        Cdc::ToExtern => {
        s.append("    // core side: a slave write face, driven by the adapter\n    output        c_can_receive,\n    input         c_receive_en,\n    input  [");
        push_decimal(s, hi as u64);
        s.append(":0] c_data_write_in,\n    // foreign side: a master write face into the extern\n    input         f_can_receive,\n    output        f_receive_en,\n    output [");
        push_decimal(s, hi as u64);
        s.append(":0] f_data_write_in\n");
        },
        Cdc::FromExtern => {
        s.append("    // foreign side: a master read face reading the extern\n    input         f_has_data,\n    output        f_drop_item,\n    input  [");
        push_decimal(s, hi as u64);
        s.append(":0] f_data_read_out,\n    // core side: a slave read face for the adapter to pull\n    output        c_has_data,\n    input         c_drop_item,\n    output [");
        push_decimal(s, hi as u64);
        s.append(":0] c_data_read_out\n");
        },
    }
}

fn push_wires(s: &mut String, width: u32)
    requires
        width >= 1,
    ensures
        final(s)@ == old(s)@ + wires_text(width),
{
    let hi = width - 1;
    s.append("  wire        wfull, rempty;\n  wire [");
    push_decimal(s, hi as u64);
    s.append(":0] rdata;\n  wire        wpush, rpop;\n  wire [");
    push_decimal(s, hi as u64);
    s.append(":0] wdata;\n\n");
}

fn push_fifo(s: &mut String, kind: Cdc, width: u32, depth: u32)
    ensures
        final(s)@ == old(s)@ + fifo_text(kind, width, depth),
{
    let aw = addr_width(depth);
    let into_core = match kind {
        Cdc::In | Cdc::FromExtern => true,
        _ => false,
    };
    let (wclk, wrst, rclk, rrst) = if into_core {
        ("f_clk", "r_rst_n", "clk", "w_rst_n")
    } else {
        ("clk", "w_rst_n", "f_clk", "r_rst_n")
    };
    s.append("  ddl_cdc_fifo #(.WIDTH(");
    push_decimal(s, width as u64);
    s.append("), .AW(");
    push_decimal(s, aw as u64);
    s.append(")) u_fifo (\n      .wclk(");
    s.append(wclk);
    s.append("), .wrst_n(");
    s.append(wrst);
    s.append("), .wpush(wpush), .wdata(wdata), .wfull(wfull),\n      .rclk(");
    s.append(rclk);
    s.append("), .rrst_n(");
    s.append(rrst);
    s.append("), .rpop(rpop),   .rdata(rdata), .rempty(rempty)\n  );\n\n");
}

fn side_prefix_str(side: Side) -> (r: &'static str)
    ensures
        r@ == side_prefix(side),
{
    match side {
        Side::Core => "c_",
        Side::Foreign => "f_",
    }
}

fn face_str(f: Face, padded: bool) -> (r: &'static str)
    ensures
        r@ == if padded { face_padded(f) } else { face_name(f) },
{
    match f {
        Face::ReceiveEn => if padded { "receive_en    " } else { "receive_en" },
        Face::DataWriteIn => if padded { "data_write_in " } else { "data_write_in" },
        Face::CanReceive => if padded { "can_receive   " } else { "can_receive" },
        Face::DropItem => if padded { "drop_item     " } else { "drop_item" },
        Face::HasData => if padded { "has_data      " } else { "has_data" },
        Face::DataReadOut => if padded { "data_read_out " } else { "data_read_out" },
    }
}

fn push_sig(s: &mut String, x: Sig, padded: bool)
    ensures
        final(s)@ == old(s)@ + if padded { sig_padded(x) } else { sig_name(x) },
{
    match x {
        Sig::Wpush => s.append(if padded { "wpush           " } else { "wpush" }),
        Sig::Wdata => s.append(if padded { "wdata           " } else { "wdata" }),
        Sig::Wfull => s.append(if padded { "wfull           " } else { "wfull" }),
        Sig::Rpop => s.append(if padded { "rpop            " } else { "rpop" }),
        Sig::Rdata => s.append(if padded { "rdata           " } else { "rdata" }),
        Sig::Rempty => s.append(if padded { "rempty          " } else { "rempty" }),
        Sig::At(side, f) => {
            s.append(side_prefix_str(side));
            s.append(face_str(f, padded));
            proof {
                assert(s@ =~= old(s)@ + (side_prefix(side) + if padded { face_padded(f) } else { face_name(f) }));
            }
        },
    }
}

fn push_rhs(s: &mut String, r: Rhs)
    ensures
        final(s)@ == old(s)@ + rhs_text(r),
{
    match r {
        Rhs::Is(a) => push_sig(s, a, false),
        Rhs::Not(a) => {
            s.append("!");
            push_sig(s, a, false);
        },
        Rhs::NotAnd(a, b) => {
            s.append("!");
            push_sig(s, a, false);
            s.append(" && ");
            push_sig(s, b, false);
        },
        Rhs::AndNot(a, b) => {
            push_sig(s, a, false);
            s.append(" && !");
            push_sig(s, b, false);
        },
    }
    proof { assert(s@ =~= old(s)@ + rhs_text(r)); }
}

fn push_tail(s: &mut String, r: Rhs, glue: bool)
    ensures
        final(s)@ == old(s)@ + tail_text(r, glue),
{
    if !glue {
        s.append(";\n");
    } else {
        match r {
            Rhs::NotAnd(_, _) => s.append(";   // the only glue\n"),
            _ => s.append(";        // the only glue\n"),
        }
    }
}

fn push_line(s: &mut String, l: Line)
    ensures
        final(s)@ == old(s)@ + line_text(l),
{
    match l {
        Line::Assign(lhs, r, glue) => {
            let ghost s0 = s@;
            s.append("  assign ");
            push_sig(s, lhs, true);
            s.append("= ");
            push_rhs(s, r);
            push_tail(s, r, glue);
            proof {
                assert(s@ =~= s0 + line_text(l));
            }
        },
        Line::Blank => s.append("\n"),
    }
}

fn receive_lines(w: Side, r: Side) -> (v: Vec<Line>)
    ensures
        v@ == receive_glue(w, r),
{
    let mut v: Vec<Line> = Vec::new();
    v.push(Line::Assign(Sig::Wpush, Rhs::Is(Sig::At(w, Face::ReceiveEn)), false));
    v.push(Line::Assign(Sig::Wdata, Rhs::Is(Sig::At(w, Face::DataWriteIn)), false));
    v.push(Line::Assign(Sig::At(w, Face::CanReceive), Rhs::Not(Sig::Wfull), false));
    v.push(Line::Blank);
    v.push(Line::Assign(Sig::At(r, Face::ReceiveEn), Rhs::NotAnd(Sig::Rempty, Sig::At(r, Face::CanReceive)), true));
    v.push(Line::Assign(Sig::At(r, Face::DataWriteIn), Rhs::Is(Sig::Rdata), false));
    v.push(Line::Assign(Sig::Rpop, Rhs::Is(Sig::At(r, Face::ReceiveEn)), false));
    proof { assert(v@ =~= receive_glue(w, r)); }
    v
}

fn drop_lines(w: Side, r: Side) -> (v: Vec<Line>)
    ensures
        v@ == drop_glue(w, r),
{
    let mut v: Vec<Line> = Vec::new();
    v.push(Line::Assign(Sig::At(w, Face::DropItem), Rhs::AndNot(Sig::At(w, Face::HasData), Sig::Wfull), true));
    v.push(Line::Assign(Sig::Wpush, Rhs::Is(Sig::At(w, Face::DropItem)), false));
    v.push(Line::Assign(Sig::Wdata, Rhs::Is(Sig::At(w, Face::DataReadOut)), false));
    v.push(Line::Blank);
    v.push(Line::Assign(Sig::At(r, Face::HasData), Rhs::Not(Sig::Rempty), false));
    v.push(Line::Assign(Sig::At(r, Face::DataReadOut), Rhs::Is(Sig::Rdata), false));
    v.push(Line::Assign(Sig::Rpop, Rhs::Is(Sig::At(r, Face::DropItem)), false));
    proof { assert(v@ =~= drop_glue(w, r)); }
    v
}

fn push_glue(s: &mut String, kind: Cdc)
    ensures
        final(s)@ == old(s)@ + glue_text(kind),
{
    let lines = match kind {
        Cdc::In => receive_lines(Side::Foreign, Side::Core),
        Cdc::Out => drop_lines(Side::Core, Side::Foreign),
        Cdc::ToExtern => receive_lines(Side::Core, Side::Foreign),
        Cdc::FromExtern => drop_lines(Side::Foreign, Side::Core),
    };
    let ghost s0 = s@;
    let mut i: usize = 0;
    while i < lines.len()
        invariant
            i <= lines@.len(),
            lines@ == glue_lines(kind),
            s@ + lines_text(lines@, i as int) == s0 + lines_text(lines@, 0),
        decreases lines@.len() - i,
    {
        let ghost before = s@;
        push_line(s, lines[i]);
        proof {
            assert(lines_text(lines@, i as int) == line_text(lines@[i as int]) + lines_text(lines@, i + 1));
            assert(s@ + lines_text(lines@, i + 1) =~= before + lines_text(lines@, i as int));
        }
        i = i + 1;
    }
    proof {
        assert(lines_text(lines@, i as int) =~= Seq::<char>::empty());
        assert(s@ =~= s@ + lines_text(lines@, i as int));
    }
}

/// Builds one shell.
///
/// The two sides are named `f_*` for the foreign face and `c_*` for the side
/// that faces the adapter DDL already emits, so a reader can tell at a glance
/// which clock a signal belongs to.
pub fn shell(kind: Cdc, width: u32, depth: u32) -> (s: String)
    requires
        width >= 1,
    ensures
        s@ == shell_text(kind, width, depth),
{
    let mut s = shell_head(kind, width, depth);
    push_face(&mut s, kind, width);
    s.append(");\n\n  // Both halves leave zero together, at any clock ratio and however\n  // short the pulse on rst_n. See lib/ddl_rst_cross.v.\n  wire w_rst_n, r_rst_n;\n  ddl_rst_cross u_rst (\n      .clk(clk), .rst_n(rst_n), .f_clk(f_clk),\n      .w_rst_n(w_rst_n), .r_rst_n(r_rst_n)\n  );\n\n");
    push_wires(&mut s, width);
    push_fifo(&mut s, kind, width, depth);
    // ...and the glue, which is the only arithmetic in the file.
    push_glue(&mut s, kind);
    s.append("\nendmodule\n");
    s
}

/// The shell's name is its dedup key: two shells with one name are the same
/// shell, of the same direction, width and depth.
pub proof fn law_cdc_name_is_the_dedup_key(k1: Cdc, w1: nat, d1: nat, k2: Cdc, w2: nat, d2: nat)
    requires
        cdc_name(k1, w1, d1) == cdc_name(k2, w2, d2),
    ensures
        k1 == k2,
        w1 == w2,
        d1 == d2,
{
    reveal_strlit("ddl_cdc_");
    reveal_strlit("in");
    reveal_strlit("out");
    reveal_strlit("to_ext");
    reveal_strlit("from_ext");
    reveal_strlit("_");
    let s = cdc_name(k1, w1, d1);
    let p1 = "ddl_cdc_"@ + cdc_what(k1) + "_"@;
    let p2 = "ddl_cdc_"@ + cdc_what(k2) + "_"@;
    assert(s[8] == cdc_what(k1)[0]);
    assert(s[8] == cdc_what(k2)[0]);
    assert(k1 == k2);
    let rest1 = dec(w1) + "x"@ + dec(d1);
    let rest2 = dec(w2) + "x"@ + dec(d2);
    assert(s =~= p1 + rest1);
    assert(cdc_name(k2, w2, d2) =~= p2 + rest2);
    assert(rest1 =~= s.skip(p1.len() as int));
    assert(rest2 =~= s.skip(p2.len() as int));
    lemma_split_at_x(w1, d1, w2, d2);
}

} // verus!
