use ddl::ir::{Assertion, BinOp, Op, UnOp, ValueId};
use ddl::ir_fsm::{crossing_lists, retarget, Next, Target};
use ddl::ir_pipe::{gate_assertions, load_on, moving, per_stage};
use ddl::lower_path::narrow_to_path;
use ddl::lowerer::Lowerer;
use ddl::ty::{cast_hint, cast_hint_pub, Ty};

fn strings(xs: &[&str]) -> Vec<String> {
    xs.iter().map(|x| x.to_string()).collect()
}

#[test]
fn a_hint_names_the_cast_that_fits() {
    assert_eq!(cast_hint(&Ty::UInt(8), &Ty::SInt(8)), "convert with `@signed(x)` or `@unsigned(x)` to reach `s8`");
    assert_eq!(cast_hint(&Ty::UInt(8), &Ty::UInt(32)), "widen with `@zext(x, 32)`");
    assert_eq!(cast_hint(&Ty::SInt(8), &Ty::SInt(16)), "widen with `@sext(x, 16)`");
    assert_eq!(cast_hint_pub(&Ty::UInt(32), &Ty::UInt(5)), "narrow with `@trunc(x, 5)`");
}

#[test]
fn a_single_stage_keeps_the_plain_name() {
    assert_eq!(per_stage("room", 0, 1), "room");
    assert_eq!(per_stage("room", 2, 3), "room2");
}

#[test]
fn a_stage_nothing_holds_up_needs_no_mux() {
    let mut low = Lowerer::new();
    let v = low.emit(Ty::UInt(8), Op::Const(3));
    let held = low.emit(Ty::UInt(8), Op::Const(4));
    let live = low.emit(Ty::UInt(1), Op::Const(1));
    assert_eq!(load_on(&mut low, None, Ty::UInt(8), v, held), v);
    assert_eq!(moving(&mut low, live, None), live);
    assert_eq!(narrow_to_path(&mut low, live, None), live);
    let shift = low.emit(Ty::UInt(1), Op::Port(ddl::ir::PortId(0)));
    let loaded = load_on(&mut low, Some(shift), Ty::UInt(8), v, held);
    let moved = moving(&mut low, live, Some(shift));
    let (values, _) = low.take_values();
    assert!(matches!(values[loaded.0 as usize].op, Op::Mux { cond, then_val, else_val }
        if cond == shift && then_val == v && else_val == held));
    // `1 & shift` is `shift`: the constant folds away.
    assert_eq!(moved, shift);
}

#[test]
fn a_stage_that_is_not_executing_holds_its_assertions_trivially() {
    let mut low = Lowerer::new();
    let exec = low.emit(Ty::UInt(1), Op::Port(ddl::ir::PortId(0)));
    let c0 = low.emit(Ty::UInt(1), Op::Port(ddl::ir::PortId(1)));
    let c1 = low.emit(Ty::UInt(1), Op::Port(ddl::ir::PortId(2)));
    low.asserts.push(Assertion { cond: c0, message: "before".to_string(), is_fatal: false });
    low.asserts.push(Assertion { cond: c1, message: "inside".to_string(), is_fatal: true });
    gate_assertions(&mut low, 1, exec);
    assert_eq!(low.asserts[0].cond, c0);
    let gated = low.asserts[1].cond;
    assert_eq!(low.asserts[1].message, "inside");
    let (values, _) = low.take_values();
    assert!(matches!(values[3].op, Op::Un { op: UnOp::LogNot, arg } if arg == exec));
    assert!(matches!(values[gated.0 as usize].op, Op::Bin { op: BinOp::Or, lhs: ValueId(3), rhs } if rhs == c1));
}

#[test]
fn a_name_crosses_when_another_state_reads_it() {
    let defines = vec![strings(&["x", "y"]), strings(&["z"]), strings(&["w"])];
    let reads = vec![strings(&["x", "z"]), strings(&["y"]), strings(&["w"])];
    let got = crossing_lists(&defines, &reads);
    // `x` is read only where it is defined; `w` likewise.
    assert_eq!(got, vec![strings(&["y"]), strings(&["z"]), Vec::<String>::new()]);
}

#[test]
fn closing_a_loop_sends_every_jump_to_the_placeholder_to_the_entry() {
    let mut nexts: Vec<Next<&str, &str>> = vec![
        Next::Straight(Target::State(7)),
        Next::Branch { cond: "c", then_t: Target::State(7), else_t: Target::Exit },
        Next::Switch { stmt: "m", targets: vec![Target::State(1), Target::State(7), Target::Halt] },
    ];
    retarget(&mut nexts, 7, Target::State(2));
    assert!(matches!(nexts[0], Next::Straight(Target::State(2))));
    assert!(matches!(nexts[1], Next::Branch { cond: "c", then_t: Target::State(2), else_t: Target::Exit }));
    match &nexts[2] {
        Next::Switch { stmt, targets } => {
            assert_eq!(*stmt, "m");
            assert_eq!(targets, &vec![Target::State(1), Target::State(2), Target::Halt]);
        }
        _ => panic!("a switch stays a switch"),
    }
}

/// A body with a clock and two input pipes `a` and `b`, and the head that
/// gathers them; `blocking` says which of the two is a blocking receive.
fn head_of(blocking: [bool; 2]) -> (Lowerer, ddl::ir_pipe::Head) {
    let mut low = Lowerer::new();
    let mut env = ddl::env::Env::new();
    low.declare_clock(&mut env);
    low.declare_pipe("a".to_string(), Ty::UInt(8), true);
    low.declare_pipe("b".to_string(), Ty::UInt(8), true);
    let qa = low.emit(Ty::UInt(2), Op::RegRead(0));
    let qb = low.emit(Ty::UInt(2), Op::RegRead(1));
    let head = ddl::ir_pipe::Head {
        ix: vec![0, 1],
        blocking: blocking.to_vec(),
        rsalt_q: vec![qa, qb],
        rsalt_slot: vec![0, 1],
        item: vec![],
        present: vec![None, None],
    };
    (low, head)
}

#[test]
fn the_head_waits_on_its_blocking_inputs_only() {
    let (mut low, mut head) = head_of([true, false]);
    let mut offered = None;
    let r = ddl::ir_pipe::stage_live(&mut low, 0, &mut offered, &mut head, 0);
    // One blocking input: its present bit is the offer, and it is cached.
    assert_eq!(offered, Some(r));
    assert_eq!(head.present[0], Some(r));
    assert_eq!(head.present[1], None);
    assert_eq!(low.values[r.0 as usize].name.as_deref(), Some("a_present"));
    let n = low.values.len();
    assert_eq!(ddl::ir_pipe::stage_live(&mut low, 0, &mut offered, &mut head, 0), r);
    assert_eq!(low.values.len(), n);
}

#[test]
fn without_a_blocking_input_the_head_offers_when_any_delivers() {
    let (mut low, mut head) = head_of([false, false]);
    let mut offered = None;
    let r = ddl::ir_pipe::stage_live(&mut low, 0, &mut offered, &mut head, 0);
    let (pa, pb) = (head.present[0].unwrap(), head.present[1].unwrap());
    assert!(matches!(low.values[r.0 as usize].op, Op::Bin { op: BinOp::Or, lhs, rhs } if lhs == pa && rhs == pb));
    assert_eq!(low.values[r.0 as usize].name.as_deref(), Some("offered"));
    // Two blocking inputs: both must deliver.
    let (mut low, mut head) = head_of([true, true]);
    let mut offered = None;
    let r = ddl::ir_pipe::stage_live(&mut low, 0, &mut offered, &mut head, 0);
    assert!(matches!(low.values[r.0 as usize].op, Op::Bin { op: BinOp::And, .. }));
}

#[test]
fn a_later_stage_is_live_when_its_valid_register_is_set() {
    let (mut low, mut head) = head_of([true, false]);
    let mut offered = None;
    let r = ddl::ir_pipe::stage_live(&mut low, 3, &mut offered, &mut head, 10);
    assert!(matches!(low.values[r.0 as usize].op, Op::RegRead(12)));
    // A register read is a signal of its own: it keeps no second name.
    assert_eq!(low.values[r.0 as usize].name, None);
    assert_eq!(offered, None);
    assert_eq!(head.present, vec![None, None]);
}

#[test]
fn a_value_crosses_a_cut_through_a_register_that_loads_when_the_stage_moves() {
    let mut low = Lowerer::new();
    let v = low.emit(Ty::UInt(8), Op::Const(7));
    let shift = low.emit(Ty::UInt(1), Op::Port(ddl::ir::PortId(0)));
    let mut pending = Vec::new();
    let mut next_slot = 4usize;
    let held = ddl::ir_pipe::cross(&mut low, &mut pending, &mut next_slot, "x_s1".to_string(), Ty::UInt(8), v, Some(shift));
    assert_eq!(next_slot, 5);
    assert!(matches!(low.values[held.0 as usize].op, Op::RegRead(4)));
    assert_eq!(low.values[held.0 as usize].name.as_deref(), Some("x_s1"));
    assert_eq!(pending.len(), 1);
    let (slot, name, ty, next) = &pending[0];
    assert_eq!((*slot, name.as_str(), ty.display()), (4, "x_s1", "i8".to_string()));
    assert!(matches!(low.values[next.0 as usize].op, Op::Mux { cond, then_val, else_val }
        if cond == shift && then_val == v && else_val == held));
    // Without a shift the register simply takes the value.
    let h2 = ddl::ir_pipe::cross(&mut low, &mut pending, &mut next_slot, "y".to_string(), Ty::UInt(8), v, None);
    assert_eq!(pending[1].3, v);
    assert!(matches!(low.values[h2.0 as usize].op, Op::RegRead(5)));
}
