use ddl::diag::{DiagSink, SourceMap};
use ddl::ir::{BinOp, Op, PortId};
use ddl::lowerer::Lowerer;
use ddl::ty::Ty;

fn map() -> SourceMap {
    SourceMap::new("t.ddl".to_string(), "process P ()\n".to_string())
}

#[test]
fn a_second_transfer_on_the_same_path_is_refused() {
    let m = map();
    let mut sink = DiagSink::new(&m);
    let mut low = Lowerer::new();
    assert!(low.claim_transfer("p", false, false, &mut sink).is_some());
    assert!(low.claim_transfer("p", false, false, &mut sink).is_none());
    assert!(low.claim_transfer("q", true, true, &mut sink).is_none());
    let msgs: Vec<String> = sink.into_diags().into_iter().map(|d| d.msg).collect();
    assert_eq!(msgs, vec![
        "`p` is sent to more than once in one cycle".to_string(),
        "`q` is received from more than once in one cycle".to_string(),
    ]);
}

#[test]
fn the_two_arms_of_an_if_may_each_transfer_once() {
    let m = map();
    let mut sink = DiagSink::new(&m);
    let mut low = Lowerer::new();
    let c = low.emit(Ty::UInt(1), Op::Port(PortId(0)));
    let d = low.push_cond(c, true);
    assert!(low.claim_transfer("p", false, false, &mut sink).is_some());
    low.pop_path(d);
    let d = low.push_cond(c, false);
    assert!(low.claim_transfer("p", false, false, &mut sink).is_some());
    low.pop_path(d);
    // At the top level it overlaps both.
    assert!(low.claim_transfer("p", false, false, &mut sink).is_none());
    assert_eq!(sink.into_diags().len(), 1);
}

#[test]
fn match_arms_with_no_label_in_common_are_disjoint() {
    let m = map();
    let mut sink = DiagSink::new(&m);
    let mut low = Lowerer::new();
    let s = low.emit(Ty::UInt(2), Op::Port(PortId(0)));
    let d = low.push_labels(s, vec![0, 1], true);
    assert!(low.claim_transfer("p", false, true, &mut sink).is_some());
    low.pop_path(d);
    let d = low.push_labels(s, vec![2], true);
    assert!(low.claim_transfer("p", false, true, &mut sink).is_some());
    low.pop_path(d);
    let d = low.push_labels(s, vec![1, 3], true);
    assert!(low.claim_transfer("p", false, true, &mut sink).is_none());
    low.pop_path(d);
    assert_eq!(low.transfer_paths.len(), 1);
    assert_eq!(low.transfer_paths[0].1.len(), 2);
}

#[test]
fn extending_widens_by_the_value_s_own_signedness() {
    let mut low = Lowerer::new();
    let u = low.emit(Ty::UInt(8), Op::Port(PortId(0)));
    let s = low.emit(Ty::SInt(8), Op::Port(PortId(1)));
    let k = low.emit(Ty::UInt(1), Op::Const(1));
    let wu = low.extend_to(u, &Ty::UInt(16));
    let ws = low.extend_to(s, &Ty::SInt(16));
    let wk = low.extend_to(k, &Ty::UInt(2));
    let same = low.extend_to(u, &Ty::UInt(8));
    let cast = low.extend_to(u, &Ty::SInt(16));
    assert_eq!(same, u);
    let (values, _) = low.take_values();
    assert!(matches!(values[wu.0 as usize].op, Op::ZExt { arg, to: 16 } if arg == u));
    assert!(matches!(values[ws.0 as usize].op, Op::SExt { arg, to: 16 } if arg == s));
    // A constant that fits is written again at the wanted width.
    assert!(matches!(values[wk.0 as usize].op, Op::Const(1)));
    assert!(matches!(values[wk.0 as usize].ty, Ty::UInt(2)));
    // Widened unsigned, then reinterpreted.
    assert!(matches!(values[cast.0 as usize].op, Op::Cast { .. }));
    assert!(matches!(values[cast.0 as usize].ty, Ty::SInt(16)));
}

#[test]
fn a_send_offers_its_data_and_widens_its_guard() {
    let mut low = Lowerer::new();
    let ix = low.declare_pipe("o".to_string(), Ty::UInt(8), false);
    let fired = low.emit(Ty::UInt(1), Op::Port(PortId(0)));
    low.pipes[ix].fired = Some(fired);
    // Never used: no transfer.
    let none = low.pipe_transfer(ix);
    let c = low.emit(Ty::UInt(1), Op::Port(PortId(1)));
    let data = low.emit(Ty::UInt(8), Op::Const(7));
    let d = low.push_cond(c, true);
    let got = low.request_pipe(ix, Some(data));
    low.pop_path(d);
    assert!(low.pipes[ix].used);
    assert_eq!(low.pipes[ix].sent, Some(data));
    let guard = low.pipes[ix].send_guard.unwrap();
    let again = low.pipe_transfer(ix);
    let (values, _) = low.take_values();
    assert!(matches!(values[none.0 as usize].op, Op::Const(0)));
    assert!(matches!(values[got.0 as usize].op, Op::Bin { op: BinOp::And, lhs, rhs } if lhs == fired && rhs == guard));
    assert!(matches!(values[again.0 as usize].op, Op::Bin { op: BinOp::And, lhs, .. } if lhs == fired));
}

#[test]
fn a_guard_joins_an_earlier_one_only_once_the_pipe_is_used() {
    let mut low = Lowerer::new();
    let a = low.emit(Ty::UInt(1), Op::Port(PortId(0)));
    let b = low.emit(Ty::UInt(1), Op::Port(PortId(1)));
    assert_eq!(low.union_transfer_guard(false, Some(a), Some(b)), Some(b));
    assert_eq!(low.union_transfer_guard(true, None, Some(b)), None);
    let g = low.union_transfer_guard(true, Some(a), Some(b)).unwrap();
    let (values, _) = low.take_values();
    assert!(matches!(values[g.0 as usize].op, Op::Bin { op: BinOp::Or, lhs, rhs } if lhs == a && rhs == b));
}
