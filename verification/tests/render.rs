use ddl::dot;
use ddl::ir::{Assertion, BinOp, Instance, Module, Op, Port, PortDir, PortId, ValueDef, ValueId};
use ddl::render::render_module;
use ddl::ty::Ty;

fn s(x: &str) -> String {
    x.to_string()
}

fn empty(name: &str) -> Module {
    Module {
        name: s(name),
        ports: Vec::new(),
        values: Vec::new(),
        drivers: Vec::new(),
        regs: Vec::new(),
        mems: Vec::new(),
        asserts: Vec::new(),
        params: Vec::new(),
        nets: Vec::new(),
        instances: Vec::new(),
        calls: Vec::new(),
    }
}

fn port(name: &str, dir: PortDir) -> Port {
    Port { name: s(name), dir, ty: Ty::UInt(1) }
}

fn value(id: u32, op: Op, name: Option<&str>) -> ValueDef {
    ValueDef { id: ValueId(id), ty: Ty::UInt(8), op, name: name.map(s) }
}

/// `o = a + 1`, and an assertion on the sum.
fn adder() -> Module {
    let mut m = empty("m");
    m.ports = vec![
        Port { name: s("a"), dir: PortDir::In, ty: Ty::UInt(8) },
        Port { name: s("o"), dir: PortDir::Out, ty: Ty::UInt(8) },
    ];
    m.values = vec![
        value(0, Op::Port(PortId(0)), None),
        value(1, Op::Const(1), None),
        value(2, Op::Bin { op: BinOp::Add, lhs: ValueId(0), rhs: ValueId(1) }, Some("sum")),
    ];
    m.drivers = vec![(PortId(1), ValueId(2))];
    m.asserts = vec![Assertion { cond: ValueId(2), message: s("big"), is_fatal: false }];
    m
}

#[test]
fn a_module_renders_ports_values_drivers_and_asserts() {
    let want = concat_lines(&[
        "module m",
        "  port  #0 in  a : i8",
        "  port  #1 out o : i8",
        "",
        "  %0 : i8 = port a",
        "  %1 : i8 = const 1",
        "  %2 : i8 = Add %0, %1  ; sum",
        "",
        "  drive o = %2",
        "  assert %2 \"big\"",
    ]);
    assert_eq!(render_module(&adder()), want);
}

#[test]
fn a_module_with_nothing_driven_has_no_second_gap() {
    let mut m = empty("k");
    m.values = vec![value(0, Op::Const(300), None)];
    assert_eq!(render_module(&m), "module k\n\n  %0 : i8 = const 300\n");
}

#[test]
fn a_fatal_assertion_says_so_and_quotes_its_message() {
    let mut m = adder();
    m.asserts = vec![Assertion { cond: ValueId(1), message: s("a \"q\"\n"), is_fatal: true }];
    let text = render_module(&m);
    assert!(text.ends_with("  fatal  %1 \"a \\\"q\\\"\\n\"\n"), "{}", text);
}

fn concat_lines(lines: &[&str]) -> String {
    let mut out = String::new();
    for l in lines {
        out.push_str(l);
        out.push('\n');
    }
    out
}

/// `in -> u_a -> u_b -> out`, the middle pipe produced by `u_a`.
fn chain() -> Module {
    let mut m = empty("top");
    m.ports = vec![
        port("in_valid", PortDir::In),
        port("in_ready", PortDir::Out),
        port("out_valid", PortDir::Out),
        port("out_ready", PortDir::In),
    ];
    m.instances = vec![
        Instance {
            module: s("a"),
            name: s("u_a"),
            conns: vec![(s("i_valid"), s("in_valid")), (s("o_valid"), s("mid_valid"))],
            produces: vec![s("mid")],
        },
        Instance {
            module: s("b"),
            name: s("u_b"),
            conns: vec![(s("i_valid"), s("mid_valid")), (s("o_valid"), s("out_valid"))],
            produces: vec![s("out")],
        },
    ];
    m
}

const HEAD: &str = "digraph ddl {\n  rankdir=LR;\n  node [fontname=\"monospace\"];\n  edge [fontname=\"monospace\", fontsize=10];\n";

#[test]
fn a_graph_draws_its_boundary_its_instances_and_one_edge_per_pipe() {
    let want = format!(
        "{}{}",
        HEAD,
        concat_lines(&[
            "",
            "  subgraph cluster_top {",
            "    label=\"graph top\";",
            "    style=rounded;",
            "    color=gray50;",
            "    \"top__in\" [shape=invhouse, label=\"in\"];",
            "    \"top__out\" [shape=house, label=\"out\"];",
            "    \"top__u_a\" [shape=box, label=\"u_a\\na\"];",
            "    \"top__u_b\" [shape=box, label=\"u_b\\nb\"];",
            "    \"top__u_a\" -> \"top__u_b\" [label=\"mid\"];",
            "    \"top__u_b\" -> \"top__out\" [label=\"out\"];",
            "    \"top__in\" -> \"top__u_a\" [label=\"in\"];",
            "  }",
            "}",
        ])
    );
    assert_eq!(dot::render(&vec![adder(), chain()]), want);
}

#[test]
fn no_graph_says_so_rather_than_drawing_nothing() {
    let want = format!("{}  empty [shape=none, label=\"no `graph` declarations\"];\n}}\n", HEAD);
    assert_eq!(dot::render(&vec![adder()]), want);
    assert_eq!(dot::render(&Vec::new()), want);
}

#[test]
fn a_cluster_name_keeps_only_letters_and_digits() {
    let mut m = chain();
    m.name = s("my-top.v2");
    let text = dot::render(&vec![m]);
    assert!(text.contains("  subgraph cluster_my_top_v2 {\n"), "{}", text);
    assert!(text.contains("    label=\"graph my-top.v2\";\n"), "{}", text);
}

#[test]
fn modules_without_instances_leave_the_picture_as_it_is() {
    let with_bare = dot::render(&vec![adder(), chain(), empty("idle")]);
    assert_eq!(with_bare, dot::render(&vec![chain()]));
}

#[test]
fn an_assertion_message_is_quoted_as_debug_quotes_it() {
    let msg = "é \u{85} \u{301}x \u{7f}";
    let mut m = adder();
    m.asserts = vec![Assertion { cond: ValueId(1), message: s(msg), is_fatal: true }];
    let text = render_module(&m);
    let want = format!("  fatal  %1 {:?}\n", msg);
    assert!(text.ends_with(&want), "{}", text);
}
