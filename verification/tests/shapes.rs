use ddl::ir::{BinOp, Op, PortDir, PortId, UnOp};
use ddl::ir_adapt::{self, Adapt};
use ddl::ir_comb::{self, numbered, numbered0, pipe_names, Comb};
use ddl::ty::Ty;

fn names(m: &ddl::ir::Module) -> Vec<String> {
    m.ports.iter().map(|p| p.name.clone()).collect()
}

#[test]
fn a_combinator_name_is_its_kind_fan_and_width() {
    assert_eq!(ir_comb::module_name(Comb::Merge, 3, &Ty::UInt(8)), "ddl_merge_3x8");
    assert_eq!(ir_comb::module_name(Comb::Split, 2, &Ty::SInt(16)), "ddl_split_2x16");
    // "1x23" and "12x3" would read alike without the separator.
    assert_ne!(
        ir_comb::module_name(Comb::Merge, 1, &Ty::UInt(23)),
        ir_comb::module_name(Comb::Merge, 12, &Ty::UInt(3))
    );
    assert_ne!(
        ir_comb::module_name(Comb::Merge, 2, &Ty::UInt(8)),
        ir_comb::module_name(Comb::Split, 2, &Ty::UInt(8))
    );
}

#[test]
fn combinators_are_recognised_by_their_spelling() {
    assert_eq!(Comb::of("@merge"), Some(Comb::Merge));
    assert_eq!(Comb::of("@split"), Some(Comb::Split));
    assert_eq!(Comb::of("merge"), None);
    assert_eq!(Comb::Merge.spelling(), "@merge");
    assert_eq!(Comb::Split.spelling(), "@split");
    assert_eq!(Comb::Merge.fan(4), 3);
}

#[test]
fn combinator_pipes_read_from_then_to() {
    let m = pipe_names(Comb::Merge, 2);
    assert_eq!(m, vec![("i0".to_string(), true), ("i1".to_string(), true), ("o".to_string(), false)]);
    let s = pipe_names(Comb::Split, 2);
    assert_eq!(s, vec![("i".to_string(), true), ("o0".to_string(), false), ("o1".to_string(), false)]);
    assert_eq!(numbered("o", 12, "_data"), "o12_data");
    assert_eq!(numbered0("i", 0), "i0");
}

#[test]
fn a_built_merge_has_a_salt_pipe_per_side() {
    let m = ir_comb::build(Comb::Merge, 2, &Ty::UInt(8));
    assert_eq!(m.name, "ddl_merge_2x8");
    assert_eq!(
        names(&m),
        vec![
            "clk", "rst_n", "i0_wsalt", "i0_rsalt", "i0_data", "i1_wsalt", "i1_rsalt", "i1_data",
            "o_wsalt", "o_rsalt", "o_data",
        ]
    );
    assert_eq!(m.ports[2].dir, PortDir::In);
    assert_eq!(m.ports[3].dir, PortDir::Out);
    assert_eq!(m.ports[8].dir, PortDir::Out);
    assert_eq!(m.ports[10].ty.display(), "[i8; 2]");
    assert_eq!(m.regs.len(), 2 + 4);
    assert!(m.regs.iter().all(|r| r.reset == 0));
    assert!(m.instances.is_empty() && m.mems.is_empty());
}

#[test]
fn a_built_split_has_one_register_and_three_per_copy() {
    let m = ir_comb::build(Comb::Split, 3, &Ty::SInt(4));
    assert_eq!(m.name, "ddl_split_3x4");
    assert_eq!(m.ports.len(), 2 + 3 * 4);
    assert_eq!(m.ports[2].name, "i_wsalt");
    assert_eq!(m.ports[5].name, "o0_wsalt");
    assert_eq!(m.ports[13].name, "o2_data");
    assert_eq!(m.regs.len(), 1 + 3 * 3);
}

#[test]
fn which_adapter_belongs_at_a_boundary() {
    assert_eq!(Adapt::at(true, true), Adapt::SaltToWport);
    assert_eq!(Adapt::at(false, true), Adapt::RportToSalt);
    assert_eq!(Adapt::at(true, false), Adapt::WportToSalt);
    assert_eq!(Adapt::at(false, false), Adapt::SaltToRport);
    assert_eq!(Adapt::SaltToWport.face(), ["can_receive", "receive_en", "data_write_in"]);
    assert_eq!(Adapt::RportToSalt.face(), ["has_data", "drop_item", "data_read_out"]);
    assert_eq!(Adapt::SaltToRport.salt_pipe(), "i");
    assert_eq!(Adapt::WportToSalt.salt_pipe(), "o");
}

#[test]
fn an_adapter_name_is_its_direction_and_width() {
    assert_eq!(ir_adapt::module_name(Adapt::SaltToRport, &Ty::UInt(32)), "ddl_salt_to_rport_32");
    assert_eq!(ir_adapt::module_name(Adapt::RportToSalt, &Ty::UInt(1)), "ddl_rport_to_salt_1");
    assert_ne!(
        ir_adapt::module_name(Adapt::SaltToWport, &Ty::UInt(8)),
        ir_adapt::module_name(Adapt::WportToSalt, &Ty::UInt(8))
    );
}

#[test]
fn a_built_adapter_shows_a_plain_fifo_face() {
    let m = ir_adapt::build(Adapt::SaltToRport, &Ty::UInt(16));
    assert_eq!(m.name, "ddl_salt_to_rport_16");
    assert_eq!(
        names(&m),
        vec!["clk", "rst_n", "i_wsalt", "i_rsalt", "i_data", "has_data", "drop_item", "data_read_out"]
    );
    assert_eq!(m.ports[5].dir, PortDir::Out);
    assert_eq!(m.ports[6].dir, PortDir::In);
    assert_eq!(m.ports[7].dir, PortDir::Out);
    assert_eq!(m.ports[7].ty.display(), "i16");
    assert_eq!(m.regs.len(), 1);

    let w = ir_adapt::build(Adapt::WportToSalt, &Ty::UInt(16));
    assert_eq!(w.ports[2].name, "o_wsalt");
    assert_eq!(w.ports[2].dir, PortDir::Out);
    assert_eq!(w.ports[7].name, "data_write_in");
    assert_eq!(w.ports[7].dir, PortDir::In);
    assert_eq!(w.regs.len(), 3);
}

#[test]
fn a_merge_pushes_only_when_granted_and_there_is_room() {
    let m = ir_comb::build(Comb::Merge, 2, &Ty::UInt(8));
    // The output's write salt (slot fan + 2) steps on `push`.
    let next = &m.values[m.regs[4].next.0 as usize];
    let push = match next.op {
        Op::Mux { cond, .. } => cond,
        _ => panic!("the write salt should step through a mux"),
    };
    match m.values[push.0 as usize].op {
        Op::Bin { op: BinOp::And, rhs, .. } => {
            assert!(matches!(m.values[rhs.0 as usize].op, Op::Un { op: UnOp::LogNot, .. }));
        }
        _ => panic!("`push` should be a grant ANDed with room"),
    }
    assert_eq!(m.values[push.0 as usize].name.as_deref(), Some("push"));
}

#[test]
fn a_split_takes_only_when_it_has_an_item_and_every_copy_has_room() {
    let m = ir_comb::build(Comb::Split, 2, &Ty::UInt(8));
    let next = &m.values[m.regs[0].next.0 as usize];
    let take = match next.op {
        Op::Mux { cond, .. } => cond,
        _ => panic!("the read salt should step through a mux"),
    };
    assert!(matches!(m.values[take.0 as usize].op, Op::Bin { op: BinOp::And, .. }));
    assert_eq!(m.values[take.0 as usize].name.as_deref(), Some("take"));
    // Every copy's write salt steps on the same `take`.
    for k in 0..2 {
        match m.values[m.regs[3 + 3 * k].next.0 as usize].op {
            Op::Mux { cond, .. } => assert_eq!(cond, take),
            _ => panic!("a copy's write salt should step through a mux"),
        }
    }
}

#[test]
fn a_combinator_drives_each_data_and_salt_port_once() {
    let m = ir_comb::build(Comb::Merge, 2, &Ty::UInt(8));
    let ports: Vec<PortId> = m.drivers.iter().map(|d| d.0).collect();
    // The output's data and write salt, then each input's read salt.
    assert_eq!(ports, vec![PortId(10), PortId(8), PortId(3), PortId(6)]);
    // The data word is the two entry registers.
    assert!(matches!(m.values[m.drivers[0].1 .0 as usize].op, Op::Concat(_)));
    let s = ir_comb::build(Comb::Split, 2, &Ty::UInt(8));
    let ports: Vec<PortId> = s.drivers.iter().map(|d| d.0).collect();
    assert_eq!(ports, vec![PortId(7), PortId(5), PortId(10), PortId(8), PortId(3)]);
}
