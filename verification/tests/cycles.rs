use ddl::diag::{DiagSink, SourceMap, Span};
use ddl::ir_graph_cycles::{check_graph_cycles, GraphUses};

fn map() -> SourceMap {
    SourceMap::new("g.ddl".to_string(), "graph a ()\n".to_string())
}

fn graph(name: &str, builds: &[(&str, u32)]) -> GraphUses {
    GraphUses {
        name: name.to_string(),
        instances: builds.iter().map(|(m, at)| (m.to_string(), Span::new(*at, *at + 1))).collect(),
    }
}

fn messages(graphs: &Vec<GraphUses>) -> Vec<(String, Option<Span>)> {
    let m = map();
    let mut sink = DiagSink::new(&m);
    check_graph_cycles(graphs, &mut sink);
    sink.into_diags().into_iter().map(|d| (d.msg, d.span)).collect()
}

#[test]
fn a_pair_that_instantiates_each_other_is_named_whole() {
    let graphs = vec![graph("a", &[("b", 10)]), graph("b", &[("a", 20)])];
    assert_eq!(
        messages(&graphs),
        vec![("`a` instantiates itself through a -> b -> a".to_string(), Some(Span::new(20, 21)))]
    );
}

#[test]
fn a_graph_in_its_own_body_cannot_instantiate_itself() {
    let graphs = vec![graph("a", &[("leaf", 5), ("a", 7)])];
    assert_eq!(messages(&graphs), vec![("`a` cannot instantiate itself".to_string(), Some(Span::new(7, 8)))]);
}

#[test]
fn a_hierarchy_and_its_leaves_are_fine() {
    // `fifo` is not a graph: a leaf closes no cycle, however often it is used.
    let graphs = vec![
        graph("top", &[("mid", 1), ("fifo", 2), ("mid", 3)]),
        graph("mid", &[("fifo", 4), ("low", 5)]),
        graph("low", &[("fifo", 6)]),
    ];
    assert!(messages(&graphs).is_empty());
}

#[test]
fn each_graph_that_closes_a_cycle_is_reported_once() {
    // Two edges back to `a`: the cycle is reported at the first to close it.
    let graphs = vec![graph("a", &[("b", 10)]), graph("b", &[("a", 20), ("a", 30)])];
    assert_eq!(messages(&graphs).len(), 1);
}

#[test]
fn the_note_says_where_feedback_belongs() {
    let m = map();
    let mut sink = DiagSink::new(&m);
    check_graph_cycles(&vec![graph("a", &[("a", 1)])], &mut sink);
    let d = sink.into_diags().remove(0);
    assert_eq!(
        d.note.as_deref(),
        Some("a graph is elaborated structurally, so a hierarchy that contains itself has no finite hardware; feedback between instances belongs on a pipe, not on an instantiation")
    );
}

#[test]
fn declarations_that_share_a_name_share_their_instances() {
    let graphs = vec![graph("a", &[]), graph("b", &[("a", 3)]), graph("a", &[("b", 4)])];
    assert_eq!(
        messages(&graphs),
        vec![("`a` instantiates itself through a -> b -> a".to_string(), Some(Span::new(3, 4)))]
    );
}
