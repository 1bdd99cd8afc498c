use ddl::diag::Severity;
use ddl::ir::{Instance, Module};
use ddl::ir_export::{closure, resolve, roots, ExportFlags};

fn s(x: &str) -> String {
    x.to_string()
}

fn strings(xs: &[&str]) -> Vec<String> {
    xs.iter().map(|x| x.to_string()).collect()
}

/// A module that builds the given instances (`(module, name)`) and inlined
/// the given functions.
fn module(name: &str, builds: &[(&str, &str)], calls: &[&str]) -> Module {
    Module {
        name: s(name),
        ports: Vec::new(),
        values: Vec::new(),
        drivers: Vec::new(),
        regs: Vec::new(),
        mems: Vec::new(),
        asserts: Vec::new(),
        params: Vec::new(),
        nets: Vec::new(),
        instances: builds
            .iter()
            .map(|(m, n)| Instance { module: s(m), name: s(n), conns: Vec::new(), produces: Vec::new() })
            .collect(),
        calls: strings(calls),
    }
}

/// `top` builds `leaf`; `other` inlined `helper`; `leaf` and `helper` are
/// used; `top` and `other` are not.
fn design() -> Vec<Module> {
    vec![
        module("leaf", &[], &[]),
        module("top", &[("leaf", "u_leaf")], &[]),
        module("helper", &[], &[]),
        module("other", &[], &["helper"]),
    ]
}

fn no_flags() -> ExportFlags {
    ExportFlags { export: Vec::new(), bare: Vec::new() }
}

#[test]
fn roots_are_the_candidates_nothing_uses_in_module_order() {
    let mods = design();
    let all = strings(&["leaf", "top", "helper", "other"]);
    assert_eq!(roots(&mods, &all), strings(&["top", "other"]));
    // A module that is not offered is never a root.
    assert_eq!(roots(&mods, &strings(&["other", "leaf"])), strings(&["other"]));
}

#[test]
fn closure_takes_both_halves_of_the_use_graph() {
    let mods = design();
    let mut got = closure(&mods, &strings(&["top"]));
    got.sort();
    assert_eq!(got, strings(&["leaf", "top"]));
    let mut got = closure(&mods, &strings(&["other"]));
    got.sort();
    assert_eq!(got, strings(&["helper", "other"]));
}

#[test]
fn closure_names_each_module_once() {
    let mods = vec![
        module("a", &[("b", "u1"), ("b", "u2")], &["b"]),
        module("b", &[("a", "back")], &[]),
    ];
    let mut got = closure(&mods, &strings(&["a", "a"]));
    got.sort();
    assert_eq!(got, strings(&["a", "b"]));
}

#[test]
fn several_roots_are_an_error_that_names_them_sorted() {
    let mods = design();
    let all = strings(&["leaf", "top", "helper", "other"]);
    let err = resolve(&mods, &all, &no_flags()).unwrap_err();
    assert_eq!(err.severity, Severity::Error);
    assert!(err.span.is_none());
    assert_eq!(err.msg, "several modules could be exported: `other`, `top`");
    assert_eq!(
        err.note.as_deref(),
        Some("name the ones you want with `--export <a>,<b>`, or keep the salt ports with `--bare-export <a>`")
    );
}

#[test]
fn one_root_is_the_target_and_is_wrapped() {
    let mods = design();
    let got = resolve(&mods, &strings(&["leaf", "top"]), &no_flags()).unwrap();
    assert_eq!(got.keep, strings(&["top"]));
    assert_eq!(got.wrap, strings(&["top"]));
}

#[test]
fn no_root_keeps_everything_and_wraps_nothing() {
    let mods = design();
    let got = resolve(&mods, &Vec::new(), &no_flags()).unwrap();
    assert_eq!(got.keep, strings(&["leaf", "top", "helper", "other"]));
    assert!(got.wrap.is_empty());
}

#[test]
fn flags_win_and_only_export_is_wrapped() {
    let mods = design();
    let flags = ExportFlags { export: strings(&["top"]), bare: strings(&["helper"]) };
    let got = resolve(&mods, &strings(&["top", "other"]), &flags).unwrap();
    assert_eq!(got.keep, strings(&["top", "helper"]));
    assert_eq!(got.wrap, strings(&["top"]));
}

#[test]
fn an_unknown_flag_lists_what_there_is() {
    let mods = design();
    let flags = ExportFlags { export: strings(&["nope"]), bare: Vec::new() };
    let err = resolve(&mods, &Vec::new(), &flags).unwrap_err();
    assert_eq!(err.msg, "no module named `nope` in this compilation");
    assert_eq!(err.note.as_deref(), Some("it emits: `helper`, `leaf`, `other`, `top`"));
}

#[test]
fn one_module_cannot_present_both_interfaces() {
    let mods = design();
    let flags = ExportFlags { export: strings(&["top"]), bare: strings(&["top"]) };
    let err = resolve(&mods, &Vec::new(), &flags).unwrap_err();
    assert_eq!(err.msg, "`top` is given to both --export and --bare-export");
    assert_eq!(err.note.as_deref(), Some("a module presents one interface or the other, not both"));
}

#[test]
fn export_flags_know_when_they_are_empty() {
    assert!(no_flags().is_empty());
    assert!(!ExportFlags { export: Vec::new(), bare: strings(&["x"]) }.is_empty());
}

#[test]
fn closure_lists_names_in_order() {
    let mods = design();
    assert_eq!(closure(&mods, &strings(&["top"])), strings(&["leaf", "top"]));
    let mods = vec![
        module("zeta", &[("alpha", "u1")], &["mid"]),
        module("mid", &[], &[]),
        module("alpha", &[], &[]),
    ];
    assert_eq!(closure(&mods, &strings(&["zeta"])), strings(&["alpha", "mid", "zeta"]));
}
