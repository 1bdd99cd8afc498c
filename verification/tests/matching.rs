use ddl::diag::{Diag, DiagSink, Severity, SourceMap, Span};
use ddl::ir::{Op, ValueId};
use ddl::ir_match::{
    match_tag, payload_value, plan_match, BindingPattern, EnumDef, MatchCase, MatchShape, MatchStmt, Named,
};
use ddl::lowerer::Lowerer;
use ddl::ty::Ty;

fn map() -> SourceMap {
    SourceMap::new("m.ddl".to_string(), "match op\n  A => x\n".to_string())
}

fn name(text: &str, at: u32) -> Named {
    Named { text: text.to_string(), span: Span::new(at, at + text.len() as u32) }
}

fn variant(text: &str, at: u32) -> BindingPattern {
    BindingPattern::EnumCase { base: name(text, at), subbinding: None }
}

fn arm(p: BindingPattern) -> MatchCase {
    MatchCase { binding_patterns: vec![p], rhs_is_unreachable: false }
}

fn one(cases: Vec<MatchCase>) -> MatchStmt {
    MatchStmt { scrutinees: 1, cases }
}

/// `enum op: A = 0, B = 1, C = 2` in a two-bit tag; only `B` carries a
/// payload, an `i4`.
fn op() -> EnumDef {
    EnumDef {
        variants: vec![("A".to_string(), 0), ("B".to_string(), 1), ("C".to_string(), 2)],
        payloads: vec![None, Some(Ty::UInt(4)), None],
        tag_width: 2,
        payload_width: 4,
    }
}

fn op_ty() -> Ty {
    Ty::Enum { name: "op".to_string(), width: 6 }
}

fn plan(stmt: &MatchStmt) -> (Option<MatchShape>, Vec<Diag>) {
    let m = map();
    let low = Lowerer::new();
    let mut sink = DiagSink::new(&m);
    let def = op();
    let r = plan_match(&low, stmt, &op_ty(), Some(&def), &mut sink);
    (r, sink.into_diags())
}

fn only_error(diags: &[Diag]) -> &Diag {
    assert_eq!(diags.len(), 1, "{:?}", diags);
    assert_eq!(diags[0].severity, Severity::Error);
    &diags[0]
}

#[test]
fn every_variant_and_a_catch_all_plan_one_label_each() {
    let stmt = one(vec![
        arm(variant("A", 10)),
        arm(BindingPattern::AnyOf(vec![variant("C", 20), variant("B", 24)])),
        arm(BindingPattern::Alphanum(name("_", 30))),
    ]);
    let (shape, diags) = plan(&stmt);
    assert!(diags.is_empty(), "{:?}", diags);
    let shape = shape.unwrap();
    assert_eq!(shape.enum_name, "op");
    assert_eq!((shape.tag_width, shape.payload_width, shape.total_width), (2, 4, 6));
    assert_eq!(shape.cases[0].labels, vec![0]);
    assert_eq!(shape.cases[1].labels, vec![2, 1]);
    assert!(shape.cases[2].labels.is_empty());
    assert_eq!(shape.cases[2].catch_all.as_ref().unwrap().text, "_");
    // The first named variant stands for the whole `match`.
    assert_eq!(shape.span, Span::new(10, 11));
    assert_eq!(shape.selectable(), vec![0, 1, 2]);
}

#[test]
fn a_payload_binding_names_its_variant() {
    let stmt = one(vec![
        arm(BindingPattern::EnumCase { base: name("B", 10), subbinding: Some(name("x", 12)) }),
        arm(BindingPattern::Alphanum(name("other", 20))),
    ]);
    let (shape, diags) = plan(&stmt);
    assert!(diags.is_empty(), "{:?}", diags);
    let (v, b) = shape.unwrap().cases[0].payload.clone().unwrap();
    assert_eq!((v.text.as_str(), b.text.as_str()), ("B", "x"));
}

#[test]
fn a_missing_variant_is_named() {
    let stmt = one(vec![arm(variant("B", 10))]);
    let (shape, diags) = plan(&stmt);
    assert!(shape.is_none());
    let d = only_error(&diags);
    assert_eq!(d.msg, "`match` does not cover A, C");
    assert_eq!(d.note.as_deref(), Some("add the missing arms or a `_` catch-all; a partial match would be a latch"));
    assert_eq!(d.span, Some(Span::new(10, 11)));
}

#[test]
fn a_sparse_tag_needs_an_arm_for_the_rest() {
    let stmt = one(vec![arm(variant("A", 10)), arm(variant("B", 14)), arm(variant("C", 18))]);
    let (shape, diags) = plan(&stmt);
    assert!(shape.is_none());
    let d = only_error(&diags);
    assert_eq!(d.msg, "`match` covers every variant of `op`, but its 2-bit tag has 1 pattern(s) that name no variant");
    // Declaring the rest impossible is enough.
    let mut cases = vec![arm(variant("A", 10)), arm(variant("B", 14)), arm(variant("C", 18))];
    cases.push(MatchCase { binding_patterns: vec![BindingPattern::Alphanum(name("_", 22))], rhs_is_unreachable: true });
    let (shape, diags) = plan(&one(cases));
    assert!(diags.is_empty(), "{:?}", diags);
    let shape = shape.unwrap();
    assert!(shape.cases[3].is_unreachable);
    assert_eq!(shape.selectable(), vec![0, 1, 2]);
}

#[test]
fn a_variant_matched_twice_is_an_error_at_the_second() {
    let stmt = one(vec![arm(variant("A", 10)), arm(variant("A", 14))]);
    let d = only_error(&plan(&stmt).1).clone();
    assert_eq!(d.msg, "`A` is matched twice");
    assert_eq!(d.span, Some(Span::new(14, 15)));
}

#[test]
fn an_unknown_variant_lists_the_real_ones() {
    let stmt = one(vec![arm(variant("Z", 10))]);
    let d = only_error(&plan(&stmt).1).clone();
    assert_eq!(d.msg, "`Z` is not a variant of `op`");
    assert_eq!(d.note.as_deref(), Some("expected one of: A, B, C"));
}

#[test]
fn nothing_may_follow_a_catch_all() {
    let stmt = one(vec![arm(BindingPattern::Alphanum(name("_", 10))), arm(variant("A", 14))]);
    let d = only_error(&plan(&stmt).1).clone();
    assert_eq!(d.msg, "this arm is unreachable: an earlier arm already matches everything");
    // The `match` is blamed at its first named variant.
    assert_eq!(d.span, Some(Span::new(14, 15)));
}

#[test]
fn unreachable_belongs_on_a_catch_all() {
    let stmt = one(vec![MatchCase { binding_patterns: vec![variant("A", 10)], rhs_is_unreachable: true }]);
    let d = only_error(&plan(&stmt).1).clone();
    assert_eq!(d.msg, "`@unreachable` belongs on a `_` arm, not on a named variant");
}

#[test]
fn a_payload_needs_a_variant_that_carries_one() {
    let stmt = one(vec![arm(BindingPattern::EnumCase { base: name("A", 10), subbinding: Some(name("x", 12)) })]);
    let d = only_error(&plan(&stmt).1).clone();
    assert_eq!(d.msg, "`A` carries no payload to bind");
    assert_eq!(d.note.as_deref(), Some("match it as `A =>`"));
    let stmt = one(vec![arm(BindingPattern::AnyOf(vec![
        BindingPattern::EnumCase { base: name("B", 10), subbinding: Some(name("x", 12)) },
        variant("C", 16),
    ]))]);
    let d = only_error(&plan(&stmt).1).clone();
    assert_eq!(d.msg, "an alternative with several variants cannot bind a payload");
    assert_eq!(d.span, Some(Span::new(12, 13)));
}

#[test]
fn mixing_a_catch_all_with_variants_is_refused() {
    let stmt = one(vec![arm(BindingPattern::AnyOf(vec![variant("A", 10), BindingPattern::Alphanum(name("x", 14))]))]);
    let d = only_error(&plan(&stmt).1).clone();
    assert_eq!(d.msg, "an alternative cannot mix a catch-all binding with named variants");
}

#[test]
fn the_shape_of_the_statement_is_checked_first() {
    let m = map();
    let low = Lowerer::new();
    let mut sink = DiagSink::new(&m);
    let def = op();
    let two = MatchStmt { scrutinees: 2, cases: Vec::new() };
    assert!(plan_match(&low, &two, &op_ty(), Some(&def), &mut sink).is_none());
    let not_enum = one(vec![arm(variant("A", 10))]);
    assert!(plan_match(&low, &not_enum, &Ty::UInt(8), Some(&def), &mut sink).is_none());
    let empty = one(Vec::new());
    assert!(plan_match(&low, &empty, &op_ty(), Some(&def), &mut sink).is_none());
    // An enum with no declaration was reported where the type was named.
    assert!(plan_match(&low, &not_enum, &op_ty(), None, &mut sink).is_none());
    let diags = sink.into_diags();
    let msgs: Vec<&str> = diags.iter().map(|d| d.msg.as_str()).collect();
    assert_eq!(msgs, vec![
        "`match` takes one scrutinee here, found 2",
        "`match` needs an enum, found `i8`",
        "`match` needs at least one arm",
    ]);
    assert_eq!(diags[1].note.as_deref(), Some("compare with `==` instead, or give the value an enum type"));
}

#[test]
fn the_tag_is_the_high_bits_and_the_payload_the_low() {
    let stmt = one(vec![
        arm(BindingPattern::EnumCase { base: name("B", 10), subbinding: Some(name("x", 12)) }),
        arm(BindingPattern::Alphanum(name("_", 20))),
    ]);
    let shape = plan(&stmt).0.unwrap();
    let mut low = Lowerer::new();
    let scrutinee = low.emit(op_ty(), Op::Const(0b10_0101));
    let tag = match_tag(&mut low, &shape, scrutinee);
    assert_eq!(tag, ValueId(1));
    let (values, _) = {
        let def = op();
        let got = payload_value(&mut low, &shape, scrutinee, &name("B", 0), &def).unwrap();
        assert_eq!(got.0, ValueId(2));
        assert!(matches!(got.1, Ty::UInt(4)));
        assert!(payload_value(&mut low, &shape, scrutinee, &name("A", 0), &def).is_none());
        low.take_values()
    };
    assert!(matches!(values[1].op, Op::Slice { arg: ValueId(0), hi: 5, lo: 4 }));
    assert_eq!(values[1].name.as_deref(), Some("op_tag"));
    assert!(matches!(values[2].op, Op::Slice { arg: ValueId(0), hi: 3, lo: 0 }));
}
