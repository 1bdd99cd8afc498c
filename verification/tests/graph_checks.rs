use ddl::diag::{DiagSink, SourceMap, Span};
use ddl::ir_graph::{check_endpoints, check_wires, GraphPipeInfo, GraphWireInfo};
use ddl::ty::Ty;

fn map() -> SourceMap {
    SourceMap::new("g.ddl".to_string(), "graph top ()\n".to_string())
}

fn wire(is_input: bool, drivers: &[u32]) -> GraphWireInfo {
    GraphWireInfo {
        ty: Ty::UInt(1),
        declared_at: Span::new(1, 2),
        is_input,
        drivers: drivers.iter().map(|&d| Span::new(d, d + 1)).collect(),
    }
}

fn pipe(external: Option<bool>, producers: &[u32], consumers: &[u32]) -> GraphPipeInfo {
    GraphPipeInfo {
        ty: Ty::UInt(8),
        declared_at: Span::new(3, 4),
        external,
        producers: producers.iter().map(|&d| Span::new(d, d + 1)).collect(),
        consumers: consumers.iter().map(|&d| Span::new(d, d + 1)).collect(),
    }
}

#[test]
fn an_output_wire_needs_exactly_one_driver() {
    let m = map();
    let mut sink = DiagSink::new(&m);
    let wires = vec![
        ("a".to_string(), wire(false, &[])),
        ("b".to_string(), wire(false, &[5])),
        ("c".to_string(), wire(false, &[6, 7, 8])),
        ("d".to_string(), wire(true, &[])),
    ];
    assert!(!check_wires(&wires, &mut sink));
    let diags = sink.into_diags();
    assert_eq!(diags.len(), 2);
    assert_eq!(diags[0].msg, "`a` is an output wire that nothing drives");
    assert_eq!(diags[0].span, Some(Span::new(1, 2)));
    assert_eq!(
        diags[0].note.as_deref(),
        Some("connect it to a `wire out` parameter of something this graph instantiates")
    );
    assert_eq!(diags[1].msg, "`c` is driven by 3 instances");
    // The second driver is the one that should not be there.
    assert_eq!(diags[1].span, Some(Span::new(7, 8)));
}

#[test]
fn wires_that_are_fine_say_so() {
    let m = map();
    let mut sink = DiagSink::new(&m);
    let wires = vec![("x".to_string(), wire(false, &[9])), ("y".to_string(), wire(true, &[1, 2]))];
    assert!(check_wires(&wires, &mut sink));
    assert!(sink.into_diags().is_empty());
}

#[test]
fn every_pipe_needs_one_producer_and_one_consumer() {
    let m = map();
    let mut sink = DiagSink::new(&m);
    let pipes = vec![
        ("ok".to_string(), pipe(None, &[10], &[11])),
        ("lonely".to_string(), pipe(None, &[], &[])),
        ("crowd".to_string(), pipe(None, &[12, 13], &[14, 15, 16])),
        ("input".to_string(), pipe(Some(true), &[], &[17])),
        ("output".to_string(), pipe(Some(false), &[18], &[19])),
    ];
    assert!(!check_endpoints("top", &pipes, &mut sink));
    let diags = sink.into_diags();
    let msgs: Vec<&str> = diags.iter().map(|d| d.msg.as_str()).collect();
    assert_eq!(msgs, vec![
        "nothing sends to `lonely`",
        "nothing receives from `lonely` in `top`",
        "`crowd` has 2 producers",
        "`crowd` has 3 consumers",
        "`output` has 2 consumers",
    ]);
    // No instance named it, so its declaration is blamed.
    assert_eq!(diags[0].span, Some(Span::new(3, 4)));
    // Otherwise the first instance that did.
    assert_eq!(diags[2].span, Some(Span::new(12, 13)));
    assert_eq!(
        diags[2].note.as_deref(),
        Some("write `@merge(a, b, p)`, which grants one of them per cycle in rotation; two drivers on one net resolve to `x`")
    );
    assert_eq!(
        diags[3].note.as_deref(),
        Some("write `@split(p, a, b)`, which gives each consumer its own copy and its own pair of entries; naming one pipe twice puts two drivers on one salt")
    );
}

#[test]
fn a_graph_input_is_already_produced() {
    let m = map();
    let mut sink = DiagSink::new(&m);
    let pipes = vec![("input".to_string(), pipe(Some(true), &[], &[17]))];
    assert!(check_endpoints("top", &pipes, &mut sink));
    assert!(sink.into_diags().is_empty());
}
