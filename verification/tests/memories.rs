use ddl::diag::{DiagSink, Severity, SourceMap, Span};
use ddl::env::Env;
use ddl::ir::{BinOp, CmpOp, Op, ValueId, WritePort};
use ddl::lowerer::{bool_type, Lowerer};
use ddl::ty::{MemKind, Ty};

/// A body with one memory `m` of 16 bytes, written nowhere yet.
fn with_memory() -> (Lowerer, Env) {
    let mut low = Lowerer::new();
    let mut env = Env::new();
    let ix = low.declare_memory("m".to_string(), Ty::UInt(8), 16, MemKind::LutRam, Some(0), &mut env);
    assert_eq!(ix, 0);
    (low, env)
}

fn op_of(low: &Lowerer, v: ValueId) -> &Op {
    &low.values[v.0 as usize].op
}

#[test]
fn a_memory_is_declared_with_an_idle_port_and_no_writes() {
    let (mut low, env) = with_memory();
    let m = &low.mems[0];
    assert_eq!(m.name, "m");
    assert_eq!(m.addr_width, 4);
    assert_eq!(m.len, 16);
    assert_eq!(m.reset, Some(0));
    assert!(m.write.is_empty() && m.read.is_empty());
    assert_eq!(m.idle, WritePort { we: ValueId(0), addr: ValueId(1), data: ValueId(2) });
    assert!(matches!(op_of(&low, ValueId(0)), Op::Const(0)));
    assert_eq!(low.ty_of(ValueId(1)).display(), "i4");
    assert_eq!(low.ty_of(ValueId(2)).display(), "i8");
    assert_eq!(low.mem_slots(0), 0);
    // The name is bound, to no value: a memory is reached by subscript.
    let b = env.get("m").unwrap();
    assert!(b.value.is_none());
    assert_eq!(b.ty.display(), "lutram [i8; 16]");
    assert_eq!(low.mem_index("m"), Some(0));
    assert_eq!(low.mem_index("n"), None);
    let idle = low.mems[0].idle;
    assert_eq!(low.idle_write(0), idle);
}

#[test]
fn one_element_takes_a_one_bit_address() {
    let mut low = Lowerer::new();
    let mut env = Env::new();
    low.declare_memory("r".to_string(), Ty::UInt(3), 1, MemKind::BlockRam, None, &mut env);
    assert_eq!(low.mems[0].addr_width, 1);
    low.declare_memory("s".to_string(), Ty::UInt(3), 17, MemKind::BlockRam, None, &mut env);
    assert_eq!(low.mems[1].addr_width, 5);
    assert_eq!(low.mem_index("s"), Some(1));
}

#[test]
fn a_write_port_lives_in_the_environment_under_three_keys() {
    let (mut low, mut env) = with_memory();
    assert_eq!(
        Lowerer::mem_port_keys("m", 2),
        ("m#2#we".to_string(), "m#2#addr".to_string(), "m#2#data".to_string())
    );
    assert_eq!(low.write_slot(0, 0, &env), None);
    let p = WritePort { we: ValueId(0), addr: ValueId(1), data: ValueId(2) };
    low.put_write_slot(0, 0, p, &mut env);
    assert_eq!(low.write_slot(0, 0, &env), Some(p));
    assert_eq!(low.write_slot(0, 1, &env), None);
    assert_eq!(env.get_value("m#0#addr"), Some(ValueId(1)));
    low.set_mem_slots(0, 1);
    assert_eq!(low.mem_slot_counts(), vec![1]);
    low.clear_write_slots(&mut env);
    assert_eq!(low.mem_slot_counts(), vec![0]);
    assert_eq!(low.write_slot(0, 0, &env), None);
    low.set_mem_slot_counts(&[3]);
    assert_eq!(low.mem_slots(0), 3);
}

#[test]
fn an_address_is_fitted_to_the_memory() {
    let map = SourceMap::new("a.ddl".to_string(), "x\n".to_string());
    let mut sink = DiagSink::new(&map);
    let (mut low, _) = with_memory();
    let at = Span::new(0, 1);

    let same = low.emit(Ty::UInt(4), Op::Const(3));
    assert_eq!(low.fit_address(same, 4, at, "i", &mut sink), Some(same));

    let narrow = low.emit(Ty::UInt(2), Op::Const(3));
    let r = low.fit_address(narrow, 4, at, "i", &mut sink).unwrap();
    // A constant is re-made at the address width rather than extended.
    assert!(matches!(op_of(&low, r), Op::Const(3)));
    assert_eq!(low.ty_of(r).display(), "i4");

    let input = low.emit(Ty::UInt(2), Op::Un { op: ddl::ir::UnOp::BitNot, arg: narrow });
    let z = low.fit_address(input, 4, at, "i", &mut sink).unwrap();
    assert!(matches!(op_of(&low, z), Op::ZExt { arg, to: 4 } if *arg == input));
    assert!(sink.diags().is_empty());

    let wide = low.emit(Ty::UInt(6), Op::Const(3));
    assert_eq!(low.fit_address(wide, 4, at, "k + 1", &mut sink), None);
    let signed = low.emit(Ty::SInt(4), Op::Const(3));
    assert_eq!(low.fit_address(signed, 4, at, "j", &mut sink), None);
    let d = sink.into_diags();
    assert_eq!(d.len(), 2);
    assert_eq!(d[0].severity, Severity::Error);
    assert_eq!(d[0].msg, "an index of `k + 1` is 6 bits wide, but this memory is addressed by 4");
    assert_eq!(d[0].note.as_deref(), Some("narrow it with `@trunc(x, 4)`"));
    assert_eq!(d[1].msg, "an address must be unsigned, found `s4`");
    assert_eq!(d[1].span, Some(at));
}

#[test]
fn a_constant_is_coerced_only_where_it_fits() {
    let (mut low, _) = with_memory();
    let k = low.emit(Ty::UInt(8), Op::Const(200));
    assert_eq!(low.coerce_const_pub(k, &Ty::UInt(8)), Some(k));
    let n = low.values.len() as u32;
    assert_eq!(low.coerce_const_pub(k, &Ty::UInt(16)), Some(ValueId(n)));
    assert_eq!(low.ty_of(ValueId(n)).display(), "i16");
    assert_eq!(low.coerce_const_pub(k, &Ty::SInt(8)), None);
    let x = low.emit(Ty::UInt(8), Op::Un { op: ddl::ir::UnOp::Neg, arg: k });
    assert_eq!(low.coerce_const_pub(x, &Ty::UInt(16)), None);
}

#[test]
fn a_mux_already_gated_by_the_enable_is_dropped() {
    let (mut low, _) = with_memory();
    let g = low.emit(bool_type(), Op::Un { op: ddl::ir::UnOp::LogNot, arg: ValueId(0) });
    let a = low.emit(Ty::UInt(8), Op::Const(5));
    let b = low.emit(Ty::UInt(8), Op::Const(6));
    let m = low.emit(Ty::UInt(8), Op::Mux { cond: g, then_val: a, else_val: b });
    let mm = low.emit(Ty::UInt(8), Op::Mux { cond: g, then_val: m, else_val: b });
    assert_eq!(low.drop_gated_mux(mm, g), a);
    // Under another condition it stays.
    assert_eq!(low.drop_gated_mux(mm, ValueId(0)), mm);
}

#[test]
fn a_read_sees_the_write_that_came_before_it() {
    let (mut low, mut env) = with_memory();
    let we = low.emit(bool_type(), Op::Un { op: ddl::ir::UnOp::LogNot, arg: ValueId(0) });
    let addr = low.emit(Ty::UInt(4), Op::Const(7));
    let data = low.emit(Ty::UInt(8), Op::Const(42));
    assert_eq!(low.pending_write(0, addr, &env), None);
    low.put_write_slot(0, 0, WritePort { we, addr, data }, &mut env);
    low.set_mem_slots(0, 1);
    // The same address value: the hit is the enable itself.
    assert_eq!(low.pending_write(0, addr, &env), Some((we, data)));
    // Another address: the hit compares the two.
    let other = low.emit(Ty::UInt(4), Op::Const(8));
    let (hit, d) = low.pending_write(0, other, &env).unwrap();
    assert_eq!(d, data);
    match op_of(&low, hit) {
        Op::Bin { op: BinOp::And, lhs, rhs } => {
            assert_eq!(*lhs, we);
            assert!(matches!(op_of(&low, *rhs), Op::Cmp { op: CmpOp::Eq, .. }));
        },
        other => panic!("{:?}", other),
    }
    // A slot whose enable is constant false is no write at all.
    let idle = low.mems[0].idle;
    low.put_write_slot(0, 0, idle, &mut env);
    assert_eq!(low.pending_write(0, addr, &env), None);
}

#[test]
fn a_join_muxes_the_ports_the_arms_left() {
    let (mut low, env) = with_memory();
    let cond = low.emit(bool_type(), Op::Un { op: ddl::ir::UnOp::LogNot, arg: ValueId(0) });
    let we = low.emit(bool_type(), Op::Un { op: ddl::ir::UnOp::LogNot, arg: cond });
    let addr = low.emit(Ty::UInt(4), Op::Const(7));
    let data = low.emit(Ty::UInt(8), Op::Const(42));
    let mut then_env = env.clone();
    low.put_write_slot(0, 0, WritePort { we, addr, data }, &mut then_env);
    let else_env = env.clone();
    let mut out = env.clone();
    low.join_write_slots(cond, &[0], &then_env, &[1], &else_env, &[0], &mut out);
    assert_eq!(low.mem_slots(0), 1);
    let p = low.write_slot(0, 0, &out).unwrap();
    let idle = low.mems[0].idle;
    // Each field is `cond ? then : idle`.
    assert!(matches!(op_of(&low, p.we), Op::Mux { cond: c, then_val, else_val } if *c == cond && *then_val == we && *else_val == idle.we));
    assert!(matches!(op_of(&low, p.data), Op::Mux { then_val, else_val, .. } if *then_val == data && *else_val == idle.data));

    low.settle_memories(&out);
    assert_eq!(low.mems[0].write.len(), 1);
    assert_eq!(low.mems[0].write[0].we, p.we);
}

#[test]
fn a_match_join_labels_only_the_arms_that_differ_from_the_default() {
    let (mut low, env) = with_memory();
    let tag = low.emit(Ty::UInt(2), Op::Un { op: ddl::ir::UnOp::BitNot, arg: ValueId(1) });
    let we = low.emit(bool_type(), Op::Un { op: ddl::ir::UnOp::LogNot, arg: ValueId(0) });
    let addr = low.emit(Ty::UInt(4), Op::Const(3));
    let data = low.emit(Ty::UInt(8), Op::Const(9));
    let mut writes = env.clone();
    low.put_write_slot(0, 0, WritePort { we, addr, data }, &mut writes);
    let arms = vec![
        (vec![0u128, 2], writes, vec![1usize]),
        (vec![1u128], env.clone(), vec![0usize]),
        (vec![], env.clone(), vec![0usize]),
    ];
    let mut out = env.clone();
    low.join_write_slots_case(tag, &[0], &arms, &mut out);
    assert_eq!(low.mem_slots(0), 1);
    let p = low.write_slot(0, 0, &out).unwrap();
    let idle = low.mems[0].idle;
    for (field, want) in [(p.we, we), (p.addr, addr), (p.data, data)] {
        match op_of(&low, field) {
            Op::Case { scrutinee, arms, default } => {
                assert_eq!(*scrutinee, tag);
                assert_eq!(arms, &vec![(vec![0u128, 2], want)]);
                assert!(*default == idle.we || *default == idle.addr || *default == idle.data);
            },
            other => panic!("{:?}", other),
        }
    }
    // With no arms there is nothing to join.
    let before = low.values.len();
    low.join_write_slots_case(tag, &[0], &[], &mut out);
    assert_eq!(low.values.len(), before);
}
