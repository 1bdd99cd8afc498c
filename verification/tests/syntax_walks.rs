use ddl::diag::{DiagSink, SourceMap, Span};
use ddl::ir_fsm::{classify_param, contains_barrier, reads_of};
use ddl::lowerer::ParamKind;
use ddl::syntax::{Builtin, Expr, Param, Qualifier, Stmt};

fn r(n: &str) -> Expr {
    Expr::Ref(n.to_string())
}

fn call(b: Builtin, args: Vec<Expr>) -> Expr {
    Expr::Call { base: Box::new(Expr::Builtin(b)), args }
}

#[test]
fn a_receive_in_an_if_arm_is_a_barrier() {
    let s = Stmt::If {
        cond: r("go"),
        then_arm: Expr::Block(vec![Stmt::Let {
            names: vec!["x".to_string()],
            mutable: false,
            value: Some(call(Builtin::BlockingReceive, vec![r("inp")])),
        }]),
        else_arm: None,
    };
    assert!(contains_barrier(&s));
}

#[test]
fn plain_arithmetic_is_no_barrier() {
    let s = Stmt::Assign {
        target: r("y"),
        value: call(Builtin::Other("@zext".to_string()), vec![r("a"), Expr::Literal(3)]),
    };
    assert!(!contains_barrier(&s));
    assert!(contains_barrier(&Stmt::Call { base: Expr::Builtin(Builtin::BlockingSend), args: vec![r("o"), r("v")] }));
    assert!(!contains_barrier(&Stmt::Break));
}

#[test]
fn reads_name_each_variable_once_and_the_assigned_memory() {
    let s = Stmt::Assign {
        target: Expr::Index { base: Box::new(r("mem")), index: Box::new(r("i")) },
        value: Expr::Splice(vec![r("a"), r("b"), r("a")]),
    };
    let mut out: Vec<String> = Vec::new();
    reads_of(&s, &mut out);
    let mut got = out.clone();
    got.sort();
    assert_eq!(got, vec!["a", "b", "i", "mem"]);
    // A second walk adds nothing new.
    reads_of(&s, &mut out);
    assert_eq!(out.len(), 4);
}

#[test]
fn a_parameter_is_a_pipe_a_constant_or_an_error() {
    let map = SourceMap::new("p.ddl".to_string(), "process p (w: wire in u8)\n".to_string());
    let mut sink = DiagSink::new(&map);
    let p = |q: Qualifier| Param { name: "w".to_string(), span: Span::new(11, 12), qualifier: q };
    assert_eq!(classify_param(&p(Qualifier::BufferIn), &mut sink), Some(ParamKind::Pipe { is_input: true }));
    assert_eq!(classify_param(&p(Qualifier::BufferOut), &mut sink), Some(ParamKind::Pipe { is_input: false }));
    assert_eq!(classify_param(&p(Qualifier::In), &mut sink), Some(ParamKind::Constant));
    assert!(sink.diags().is_empty());
    assert_eq!(classify_param(&p(Qualifier::WireIn), &mut sink), None);
    assert_eq!(sink.diags()[0].msg, "`w` is a `wire`, which this declaration cannot take");
    assert_eq!(classify_param(&p(Qualifier::Inout), &mut sink), None);
    assert_eq!(sink.diags()[1].msg, "`inout` parameters are not supported");
    assert_eq!(classify_param(&p(Qualifier::Out), &mut sink), None);
    assert_eq!(sink.diags().len(), 3);
}
