use ddl::diag::{DiagSink, SourceMap, Span};
use ddl::ir::{Op, PortId};
use ddl::ir_adapt::{self, Adapt};
use ddl::ir_fsm::{
    contains_barrier, crossing, defines_of, reads_in, reads_of, schedule_body, Barrier, BarrierOn, Channels,
    MatchOn, MemRead, Next, State, Target,
};
use ddl::ir_graph_cycles::graph_uses;
use ddl::syntax::{Builtin, Expr, GraphDecl, GraphStmt, Qualifier, Stmt};
use ddl::ty::Ty;

fn r(n: &str) -> Expr {
    Expr::Ref(n.to_string())
}

fn call(b: Builtin, args: Vec<Expr>) -> Expr {
    Expr::Call { base: Box::new(Expr::Builtin(b)), args }
}

fn recv(x: &str, p: &str) -> Stmt {
    Stmt::Let { names: vec![x.to_string()], mutable: false, value: Some(call(Builtin::BlockingReceive, vec![r(p)])) }
}

fn send(p: &str, v: Expr) -> Stmt {
    Stmt::Call { base: Expr::Builtin(Builtin::BlockingSend), args: vec![r(p), v] }
}

fn channels(pipes: &[&str], ports: &[(&str, bool)]) -> Channels {
    Channels {
        pipes: pipes.iter().map(|p| p.to_string()).collect(),
        ports: ports.iter().map(|(p, i)| (p.to_string(), *i)).collect(),
        sync_mems: Vec::new(),
    }
}

fn map() -> SourceMap {
    SourceMap::new("p.ddl".to_string(), "process p ()\n".to_string())
}

fn straight(st: &State) -> Target {
    match &st.next {
        Next::Straight(t) => *t,
        _ => panic!("expected a straight jump"),
    }
}

fn plain(stmts: Vec<Stmt>, next: Next<Expr, MatchOn>) -> State {
    State { stmts, barrier: None, mem_read: None, post: Vec::new(), next, pinned: false }
}

#[test]
fn a_receive_then_a_send_is_two_states_in_program_order() {
    let m = map();
    let mut sink = DiagSink::new(&m);
    let body = vec![recv("x", "a"), send("b", r("x"))];
    let states = schedule_body(body, &channels(&["a", "b"], &[]), Span::new(0, 1), &mut sink).unwrap();
    assert!(sink.diags().is_empty());
    assert_eq!(states.len(), 2);
    let b0 = states[0].barrier.as_ref().unwrap();
    assert_eq!(b0.on, BarrierOn::Pipe(0));
    assert!(b0.is_recv);
    assert_eq!(b0.bind.as_deref(), Some("x"));
    assert_eq!(straight(&states[0]), Target::State(1));
    let b1 = states[1].barrier.as_ref().unwrap();
    assert_eq!(b1.on, BarrierOn::Pipe(1));
    assert!(!b1.is_recv);
    assert!(matches!(b1.value, Some(Expr::Ref(ref n)) if n == "x"));
    assert_eq!(straight(&states[1]), Target::Exit);
}

#[test]
fn a_branch_right_after_a_receive_costs_no_cycle_of_its_own() {
    let m = map();
    let mut sink = DiagSink::new(&m);
    let body = vec![
        recv("cmd", "ctl"),
        Stmt::If { cond: r("cmd"), then_arm: Expr::Block(vec![send("o", r("cmd"))]), else_arm: None },
    ];
    let states = schedule_body(body, &channels(&["ctl", "o"], &[]), Span::new(0, 1), &mut sink).unwrap();
    assert_eq!(states.len(), 2);
    assert!(states[0].barrier.as_ref().unwrap().is_recv);
    match &states[0].next {
        Next::Branch { cond, then_t, else_t } => {
            assert!(matches!(cond, Expr::Ref(n) if n == "cmd"));
            assert_eq!(*then_t, Target::State(1));
            assert_eq!(*else_t, Target::Exit);
        }
        _ => panic!("the receive state decides the branch"),
    }
    assert!(!states[1].barrier.as_ref().unwrap().is_recv);
}

#[test]
fn a_loop_comes_back_to_its_first_state() {
    let m = map();
    let mut sink = DiagSink::new(&m);
    let body = vec![Stmt::Loop { body: Expr::Block(vec![recv("x", "a"), send("b", r("x"))]) }];
    let states = schedule_body(body, &channels(&["a", "b"], &[]), Span::new(0, 1), &mut sink).unwrap();
    assert_eq!(states.len(), 2);
    assert!(states[0].pinned);
    assert_eq!(straight(&states[0]), Target::State(1));
    assert_eq!(straight(&states[1]), Target::State(0));
}

#[test]
fn statements_before_the_first_wait_join_its_state() {
    let m = map();
    let mut sink = DiagSink::new(&m);
    let body = vec![
        Stmt::Let { names: vec!["y".to_string()], mutable: false, value: Some(Expr::Literal(3)) },
        send("b", r("y")),
    ];
    let states = schedule_body(body, &channels(&["b"], &[]), Span::new(0, 1), &mut sink).unwrap();
    assert_eq!(states.len(), 1);
    assert_eq!(states[0].stmts.len(), 1);
    assert!(states[0].barrier.is_some());
}

#[test]
fn a_body_that_never_waits_is_refused() {
    let m = map();
    let mut sink = DiagSink::new(&m);
    let body = vec![Stmt::Tail(Expr::Literal(1))];
    assert!(schedule_body(body, &channels(&[], &[]), Span::new(0, 1), &mut sink).is_none());
    assert_eq!(sink.diags()[0].msg, "a `loop` with no blocking operation would never advance");
}

#[test]
fn a_send_to_something_that_is_no_channel_is_refused() {
    let m = map();
    let mut sink = DiagSink::new(&m);
    let body = vec![send("q", Expr::Literal(1))];
    assert!(schedule_body(body, &channels(&["a"], &[]), Span::new(0, 1), &mut sink).is_none());
    assert_eq!(sink.diags()[0].msg, "`q` is not a pipe or `port` of this process");
}

#[test]
fn an_input_port_can_only_be_received_from() {
    let m = map();
    let mut sink = DiagSink::new(&m);
    let body = vec![send("p", Expr::Literal(1))];
    assert!(schedule_body(body, &channels(&[], &[("p", true)]), Span::new(0, 1), &mut sink).is_none());
    assert_eq!(sink.diags()[0].msg, "`p` can only be received from");
    let mut sink = DiagSink::new(&m);
    let states = schedule_body(vec![recv("v", "p")], &channels(&[], &[("p", true)]), Span::new(0, 1), &mut sink).unwrap();
    assert_eq!(states[0].barrier.as_ref().unwrap().on, BarrierOn::Port(0));
}

#[test]
fn a_receive_nested_in_plain_statements_is_refused() {
    let m = map();
    let mut sink = DiagSink::new(&m);
    let body = vec![Stmt::Assign { target: r("y"), value: call(Builtin::BlockingReceive, vec![r("a")]) }];
    assert!(schedule_body(body, &channels(&["a"], &[]), Span::new(0, 1), &mut sink).is_none());
    assert_eq!(
        sink.diags()[0].msg,
        "a blocking `@rcv`, a `@send`, a `break` or a `bram` read needs a statement that can hold states: an `if`, a `match` or a `loop`"
    );
}

#[test]
fn a_value_defined_in_one_state_and_read_in_another_crosses() {
    let states = vec![
        plain(vec![Stmt::Let { names: vec!["x".to_string()], mutable: false, value: Some(Expr::Literal(1)) }],
            Next::Straight(Target::State(1))),
        plain(vec![Stmt::Call { base: r("f"), args: vec![r("x")] }], Next::Straight(Target::Exit)),
    ];
    let c = crossing(&states);
    assert_eq!(c, vec![vec!["x".to_string()], Vec::<String>::new()]);
}

#[test]
fn a_value_read_only_where_it_is_defined_does_not_cross() {
    let states = vec![plain(
        vec![
            Stmt::Let { names: vec!["x".to_string()], mutable: false, value: Some(Expr::Literal(1)) },
            Stmt::Call { base: r("f"), args: vec![r("x")] },
        ],
        Next::Straight(Target::Exit),
    )];
    assert_eq!(crossing(&states), vec![Vec::<String>::new()]);
}

#[test]
fn a_state_defines_its_lets_its_receive_and_its_read() {
    let st = State {
        stmts: vec![Stmt::Let { names: vec!["x".to_string(), "got".to_string()], mutable: false, value: None }],
        barrier: Some(Barrier { on: BarrierOn::Pipe(0), is_recv: true, bind: Some("v".to_string()), value: None, mutable: false }),
        mem_read: Some(MemRead { mem_ix: 0, addr: r("i"), bind: "m".to_string() }),
        post: Vec::new(),
        next: Next::Branch { cond: r("c"), then_t: Target::Exit, else_t: Target::Halt },
        pinned: false,
    };
    let mut d = defines_of(&st);
    d.sort();
    assert_eq!(d, vec!["got", "m", "v", "x"]);
    let mut rd = reads_in(&st);
    rd.sort();
    assert_eq!(rd, vec!["c", "i"]);
}

#[test]
fn a_receive_in_a_for_body_is_a_barrier() {
    let s = Stmt::For { binding: "k".to_string(), target: r("n"), body: Expr::Block(vec![recv("x", "p")]) };
    assert!(contains_barrier(&s));
    assert!(!contains_barrier(&Stmt::Return(Some(r("x")))));
    assert!(contains_barrier(&Stmt::Return(Some(call(Builtin::BlockingReceive, vec![r("p")])))));
}

#[test]
fn a_name_read_in_a_for_body_or_a_return_is_collected() {
    let s = Stmt::For {
        binding: "k".to_string(),
        target: r("n"),
        body: Expr::Block(vec![Stmt::Call { base: r("f"), args: vec![r("y")] }]),
    };
    let mut out = vec!["z".to_string()];
    reads_of(&s, &mut out);
    assert!(out.contains(&"z".to_string()));
    assert!(out.contains(&"y".to_string()));
    assert!(out.contains(&"n".to_string()));
    reads_of(&Stmt::Return(Some(r("w"))), &mut out);
    assert!(out.contains(&"w".to_string()));
}

#[test]
fn a_graph_uses_the_modules_its_instances_build() {
    let g = GraphDecl {
        name: "top".to_string(),
        span: Span::new(6, 9),
        args: Vec::new(),
        body: vec![
            GraphStmt::Pipe { name: "mid".to_string(), span: Span::new(20, 23) },
            GraphStmt::Instance { module: "a".to_string(), span: Span::new(40, 41), args: vec!["mid".to_string()] },
            GraphStmt::Instance { module: "b".to_string(), span: Span::new(50, 51), args: vec!["mid".to_string()] },
        ],
    };
    let u = graph_uses(&g);
    assert_eq!(u.name, "top");
    assert_eq!(u.instances, vec![("a".to_string(), Span::new(40, 41)), ("b".to_string(), Span::new(50, 51))]);
}

#[test]
fn a_read_adapter_drives_its_data_port_with_the_owed_entry() {
    let m = ir_adapt::build(Adapt::SaltToRport, &Ty::UInt(16));
    let (port, v) = m.drivers[0];
    assert_eq!(port, PortId(7));
    assert!(matches!(m.values[v.0 as usize].op, Op::Mux { .. }));
}

fn pp(name: &str, q: Qualifier, ty: Ty, value: Option<u128>) -> ddl::process::ProcessParam {
    ddl::process::ProcessParam { param: ddl::syntax::Param { name: name.to_string(), span: Span::new(0, 1), qualifier: q }, ty, value }
}

#[test]
fn a_process_declares_its_clock_then_its_pipes_in_order() {
    let m = map();
    let mut sink = DiagSink::new(&m);
    let mut low = ddl::lowerer::Lowerer::new();
    let mut env = ddl::env::Env::new();
    let params = vec![
        pp("a", Qualifier::BufferIn, Ty::UInt(8), None),
        pp("k", Qualifier::In, Ty::UInt(4), Some(3)),
        pp("b", Qualifier::BufferOut, Ty::UInt(8), None),
    ];
    assert!(ddl::process::declare_params(&mut low, &params, &mut env, &mut sink));
    assert!(sink.diags().is_empty());
    let names: Vec<&str> = low.ports.iter().map(|p| p.name.as_str()).collect();
    assert_eq!(names, vec!["clk", "rst_n", "a_wsalt", "a_rsalt", "a_data", "b_wsalt", "b_rsalt", "b_data"]);
    assert_eq!(low.pipes.len(), 2);
    assert_eq!(low.params.len(), 1);
    assert_eq!(low.params[0].0, "k");
    assert_eq!(low.params[0].2, 3);
    assert!(env.get("k").is_some());
}

#[test]
fn a_parameter_that_does_not_fit_a_process_is_refused() {
    let m = map();
    let cases = vec![
        (pp("clk", Qualifier::BufferIn, Ty::UInt(1), None), "`clk` is implicit on a process"),
        (pp("k", Qualifier::In, Ty::UInt(4), None), "`k` has no value"),
        (
            pp("mem", Qualifier::BufferIn, Ty::Mem { elem: Box::new(Ty::UInt(8)), len: 4, kind: ddl::ty::MemKind::LutRam }, None),
            "`mem` is a memory, which cannot be a parameter",
        ),
        (pp("w", Qualifier::WireIn, Ty::UInt(1), None), "`w` is a `wire`, which this declaration cannot take"),
    ];
    for (p, msg) in cases {
        let mut sink = DiagSink::new(&m);
        let mut low = ddl::lowerer::Lowerer::new();
        let mut env = ddl::env::Env::new();
        assert!(!ddl::process::declare_params(&mut low, &vec![p], &mut env, &mut sink));
        assert_eq!(sink.diags()[0].msg, msg);
    }
}

#[test]
fn the_terminal_state_is_encoded_when_a_body_runs_once_or_breaks() {
    let looping = vec![plain(Vec::new(), Next::Straight(Target::State(1))), plain(Vec::new(), Next::Straight(Target::State(0)))];
    assert_eq!(ddl::ir_fsm::encoded_states(&looping, true), 2);
    assert_eq!(ddl::ir_fsm::encoded_states(&looping, false), 3);
    let breaking = vec![plain(Vec::new(), Next::Branch { cond: r("c"), then_t: Target::Halt, else_t: Target::State(0) })];
    assert_eq!(ddl::ir_fsm::encoded_states(&breaking, true), 2);
}

#[test]
fn the_state_register_holds_when_no_state_fires() {
    let mut low = ddl::lowerer::Lowerer::new();
    let state = low.emit(Ty::UInt(2), Op::RegRead(0));
    let fire = low.emit(Ty::UInt(1), Op::Const(1));
    let next = low.emit(Ty::UInt(2), Op::Const(2));
    let reg = ddl::ir_fsm::state_register(&mut low, state, fire, next, 3);
    assert_eq!(reg.name, "state");
    assert_eq!(reg.reset, 0);
    assert!(matches!(reg.ty, Ty::UInt(2)));
    match &low.values[reg.next.0 as usize].op {
        Op::Mux { cond, then_val, else_val } => {
            assert_eq!(*cond, fire);
            assert_eq!(*then_val, next);
            assert_eq!(*else_val, state);
        }
        _ => panic!("the next state is a hold mux"),
    }
    let wide = ddl::ir_fsm::state_register(&mut low, state, fire, next, 5);
    assert!(matches!(wide.ty, Ty::UInt(3)));
}

fn garg(name: &str, q: Qualifier, ty: Ty) -> ddl::syntax::GraphArg {
    ddl::syntax::GraphArg { name: name.to_string(), span: Span::new(0, 1), qualifier: q, ty }
}

#[test]
fn a_graph_puts_its_clock_first_then_its_pipes_and_wires_in_order() {
    let m = map();
    let mut sink = DiagSink::new(&m);
    let args = vec![
        garg("src", Qualifier::BufferIn, Ty::UInt(8)),
        garg("led", Qualifier::WireOut, Ty::UInt(1)),
        garg("dst", Qualifier::BufferOut, Ty::UInt(8)),
    ];
    let ports = ddl::ir_graph::graph_ports(&args, &mut sink).unwrap();
    let names: Vec<&str> = ports.iter().map(|p| p.name.as_str()).collect();
    assert_eq!(names, vec!["clk", "rst_n", "src_wsalt", "src_rsalt", "src_data", "led", "dst_wsalt", "dst_rsalt", "dst_data"]);
    assert_eq!(ports[5].dir, ddl::ir::PortDir::Out);
    assert_eq!(ports[3].dir, ddl::ir::PortDir::Out);
    assert_eq!(ports[6].dir, ddl::ir::PortDir::Out);
}

#[test]
fn a_graph_parameter_that_does_not_fit_is_refused() {
    let m = map();
    let cases = vec![
        (vec![garg("rst_n", Qualifier::WireIn, Ty::UInt(1))], "`rst_n` is implicit on a graph"),
        (vec![garg("k", Qualifier::In, Ty::UInt(4))], "`k` is not a pipe or a wire, and a graph connects nothing else"),
        (
            vec![garg("a", Qualifier::BufferIn, Ty::UInt(4)), garg("a", Qualifier::WireOut, Ty::UInt(1))],
            "`a` is declared twice",
        ),
    ];
    for (args, msg) in cases {
        let mut sink = DiagSink::new(&m);
        assert!(ddl::ir_graph::graph_ports(&args, &mut sink).is_none());
        assert_eq!(sink.diags()[0].msg, msg);
    }
}

fn lowered_pipes(qs: &[Qualifier]) -> ddl::lowerer::Lowerer {
    let m = map();
    let mut sink = DiagSink::new(&m);
    let mut low = ddl::lowerer::Lowerer::new();
    let mut env = ddl::env::Env::new();
    let params: Vec<_> = qs.iter().enumerate().map(|(i, q)| pp(&format!("p{}", i), *q, Ty::UInt(8), None)).collect();
    assert!(ddl::process::declare_params(&mut low, &params, &mut env, &mut sink));
    low
}

#[test]
fn a_sequence_needs_a_pipe_in_and_a_pipe_out() {
    let m = map();
    let low = lowered_pipes(&[Qualifier::BufferIn, Qualifier::BufferOut]);
    let mut sink = DiagSink::new(&m);
    assert!(ddl::ir_pipe::check_sequence_ends(&low.pipes, Span::new(0, 1), &mut sink));
    assert!(sink.diags().is_empty());

    let low = lowered_pipes(&[Qualifier::BufferIn]);
    assert!(!ddl::ir_pipe::check_sequence_ends(&low.pipes, Span::new(0, 1), &mut sink));
    assert_eq!(sink.diags()[0].msg, "a sequence has no `out` pipe, so nothing ever leaves it");

    let low = lowered_pipes(&[Qualifier::BufferOut]);
    let mut sink = DiagSink::new(&m);
    assert!(!ddl::ir_pipe::check_sequence_ends(&low.pipes, Span::new(0, 1), &mut sink));
    assert_eq!(sink.diags()[0].msg, "a sequence has no `in` pipe, so nothing ever enters it");
}
