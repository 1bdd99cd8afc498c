use ddl::env::Env;
use ddl::ir::{BinOp, CmpOp, Op, PortDir, PortId, UnOp, ValueId};
use ddl::lowerer::{bool_type, salt, suffixed, Lowerer};
use ddl::ty::Ty;

/// A body with a clock and one input pipe `a` of bytes.
fn with_input() -> (Lowerer, usize) {
    let mut low = Lowerer::new();
    let mut env = Env::new();
    low.declare_clock(&mut env);
    let ix = low.declare_pipe("a".to_string(), Ty::UInt(8), true);
    (low, ix)
}

fn name_of(low: &Lowerer, v: ValueId) -> Option<String> {
    low.values[v.0 as usize].name.clone()
}

#[test]
fn the_clock_comes_first_and_is_bound_by_name() {
    let mut low = Lowerer::new();
    let mut env = Env::new();
    low.declare_clock(&mut env);
    assert_eq!(low.ports.len(), 2);
    assert_eq!(low.ports[0].name, "clk");
    assert_eq!(low.ports[1].name, "rst_n");
    assert!(low.ports.iter().all(|p| p.dir == PortDir::In && p.ty.is_bool()));
    assert_eq!(env.get_value("clk"), Some(ValueId(0)));
    assert_eq!(env.get_value("rst_n"), Some(ValueId(1)));
    assert_eq!(name_of(&low, ValueId(1)), Some("rst_n".to_string()));
}

#[test]
fn a_pipe_is_two_salts_and_a_pair_of_entries() {
    let (low, ix) = with_input();
    assert_eq!(ix, 0);
    let names: Vec<&str> = low.ports.iter().map(|p| p.name.as_str()).collect();
    assert_eq!(names, vec!["clk", "rst_n", "a_wsalt", "a_rsalt", "a_data"]);
    // A consumer reads the producer's salt and publishes its own.
    assert_eq!(low.ports[2].dir, PortDir::In);
    assert_eq!(low.ports[3].dir, PortDir::Out);
    assert_eq!(low.ports[2].ty.display(), "i2");
    assert_eq!(low.ports[4].ty.display(), "[i8; 2]");
    // An input reads its data port once, by name.
    let d = low.pipes[0].data_value.unwrap();
    assert_eq!(name_of(&low, d), Some("a_data".to_string()));
    assert!(matches!(low.values[d.0 as usize].op, Op::Port(PortId(4))));

    let mut out = Lowerer::new();
    out.declare_pipe("o".to_string(), Ty::UInt(8), false);
    assert_eq!(out.ports[0].dir, PortDir::Out);
    assert_eq!(out.ports[1].dir, PortDir::In);
    assert!(out.pipes[0].data_value.is_none());
    assert!(out.values.is_empty());
}

#[test]
fn empty_compares_the_other_salt_with_our_own() {
    let (mut low, ix) = with_input();
    let own = low.emit(salt(), Op::Const(0));
    let e = low.pipe_empty(ix, own);
    let other = ValueId(e.0 - 1);
    // At a consumer the other side's salt is the write salt.
    assert!(matches!(low.values[other.0 as usize].op, Op::Port(PortId(2))));
    assert!(matches!(low.values[e.0 as usize].op, Op::Cmp { op: CmpOp::Eq, lhs, rhs } if lhs == other && rhs == own));
    assert_eq!(name_of(&low, e), Some("a_empty".to_string()));
}

#[test]
fn full_is_the_salts_differing_in_both_bits() {
    let (mut low, ix) = with_input();
    let own = low.emit(salt(), Op::Const(0));
    let f = low.pipe_full(ix, own);
    let flipped = ValueId(f.0 - 1);
    assert!(matches!(low.values[flipped.0 as usize].op, Op::Un { op: UnOp::BitNot, .. }));
    assert!(low.values[flipped.0 as usize].ty.same(&salt()));
    assert!(matches!(low.values[f.0 as usize].op, Op::Cmp { op: CmpOp::Eq, lhs, rhs } if lhs == own && rhs == flipped));
    assert_eq!(name_of(&low, f), Some("a_full".to_string()));
}

#[test]
fn the_index_is_the_parity_of_the_salt() {
    let (mut low, _) = with_input();
    let s = low.emit(salt(), Op::Const(3));
    let i = low.salt_idx(s, "a_ridx".to_string());
    assert!(matches!(low.values[i.0 as usize - 2].op, Op::Slice { hi: 0, lo: 0, .. }));
    assert!(matches!(low.values[i.0 as usize - 1].op, Op::Slice { hi: 1, lo: 1, .. }));
    assert!(matches!(low.values[i.0 as usize].op, Op::Bin { op: BinOp::Xor, .. }));
    assert_eq!(name_of(&low, i), Some("a_ridx".to_string()));
}

#[test]
fn the_next_salt_toggles_the_indexed_bit_or_holds() {
    let (mut low, _) = with_input();
    let s = low.emit(salt(), Op::Const(0));
    let idx = low.emit(bool_type(), Op::Const(1));
    let en = low.emit(bool_type(), Op::Const(1));
    let n = low.salt_next(s, idx, en);
    let at = n.0 as usize - 4;
    assert!(matches!(low.values[at].op, Op::Const(1)));
    assert!(matches!(low.values[at + 1].op, Op::Const(2)));
    assert!(matches!(low.values[at + 2].op, Op::Mux { cond, .. } if cond == idx));
    assert!(matches!(low.values[at + 3].op, Op::Bin { op: BinOp::Xor, lhs, .. } if lhs == s));
    assert!(matches!(low.values[n.0 as usize].op, Op::Mux { cond, else_val, .. } if cond == en && else_val == s));
}

#[test]
fn the_item_is_the_entry_the_index_names() {
    let (mut low, ix) = with_input();
    let own = low.emit(salt(), Op::Const(0));
    let item = low.pipe_item_at(ix, own);
    let pair = low.pipes[ix].data_value.unwrap();
    let at = item.0 as usize - 2;
    assert!(matches!(low.values[at].op, Op::Slice { arg, hi: 7, lo: 0 } if arg == pair));
    assert!(matches!(low.values[at + 1].op, Op::Slice { arg, hi: 15, lo: 8 } if arg == pair));
    assert_eq!(low.pipes[ix].idx, Some(ValueId(item.0 - 3)));
    assert_eq!(name_of(&low, ValueId(item.0 - 3)), Some("a_ridx".to_string()));
    assert_eq!(name_of(&low, item), Some("a_item".to_string()));

    let e0 = low.emit(Ty::UInt(8), Op::Const(1));
    let e1 = low.emit(Ty::UInt(8), Op::Const(2));
    let packed = low.pack_entries(e0, e1, &Ty::UInt(8));
    // Entry 0 in the low half: the high part comes first.
    assert!(matches!(&low.values[packed.0 as usize].op, Op::Concat(parts) if parts == &vec![e1, e0]));
    assert_eq!(low.ty_of(packed).display(), "[i8; 2]");
}

#[test]
fn one_bit_identities_fold_away() {
    let (mut low, _) = with_input();
    let x = ValueId(0);
    let one = low.emit(bool_type(), Op::Const(1));
    let zero = low.emit(bool_type(), Op::Const(0));
    let n = low.values.len();
    assert_eq!(low.emit(bool_type(), Op::Bin { op: BinOp::And, lhs: x, rhs: one }), x);
    assert_eq!(low.emit(bool_type(), Op::Bin { op: BinOp::Or, lhs: zero, rhs: x }), x);
    assert_eq!(low.emit(bool_type(), Op::Mux { cond: x, then_val: one, else_val: zero }), x);
    assert_eq!(low.values.len(), n);
    // Wider, it is kept.
    let w = low.emit(Ty::UInt(4), Op::Const(1));
    let y = low.emit(Ty::UInt(4), Op::Bin { op: BinOp::And, lhs: w, rhs: w });
    assert_eq!(y, ValueId(n as u32 + 1));
    assert_eq!(low.const_of(w), Some(1));
    assert_eq!(low.const_of(y), None);
}

#[test]
fn naming_leaves_signals_and_earlier_names_alone() {
    let (mut low, _) = with_input();
    let c = low.emit(Ty::UInt(4), Op::Const(9));
    let x = low.emit(Ty::UInt(4), Op::Un { op: UnOp::BitNot, arg: c });
    low.name_value_safe(c, "nine".to_string());
    assert_eq!(name_of(&low, c), None);
    low.name_value_fresh(x, "first".to_string());
    low.name_value_fresh(x, "second".to_string());
    assert_eq!(name_of(&low, x), Some("first".to_string()));
    low.name_value(x, "third".to_string());
    assert_eq!(name_of(&low, x), Some("third".to_string()));
    let eq = low.emit_eq(x, c);
    assert!(low.ty_of(eq).is_bool());
    assert_eq!(suffixed(&"p".to_string(), "_q"), "p_q");
}
