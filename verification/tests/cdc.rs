use ddl::ir_cdc_lib::{addr_width, module_name, shell, Cdc};

#[test]
fn a_shape_names_the_module_and_the_name_is_the_dedup_key() {
    assert_eq!(module_name(Cdc::In, 16, 8), "ddl_cdc_in_16x8");
    assert_eq!(module_name(Cdc::Out, 32, 4), "ddl_cdc_out_32x4");
    // Same width, different depth, different module.
    assert_ne!(module_name(Cdc::In, 16, 8), module_name(Cdc::In, 16, 16));
}

#[test]
fn depth_becomes_the_fifos_address_width() {
    assert_eq!(addr_width(4), 2);
    assert_eq!(addr_width(8), 3);
    assert_eq!(addr_width(16), 4);
    assert!(shell(Cdc::In, 16, 8).contains(".AW(3)"));
    assert!(shell(Cdc::In, 16, 16).contains(".AW(4)"));
}

#[test]
fn the_fifo_is_written_on_the_clock_the_data_comes_from() {
    // Into the core: written on the foreign clock, read on clk.
    let into = shell(Cdc::In, 8, 8);
    assert!(into.contains(".wclk(f_clk)"), "{}", into);
    assert!(into.contains(".rclk(clk)"), "{}", into);
    // Out of the core: the other way round.
    let out = shell(Cdc::Out, 8, 8);
    assert!(out.contains(".wclk(clk)"), "{}", out);
    assert!(out.contains(".rclk(f_clk)"), "{}", out);
}

#[test]
fn every_shell_instantiates_the_reviewed_files_and_nothing_else() {
    for kind in [Cdc::In, Cdc::Out, Cdc::ToExtern, Cdc::FromExtern] {
        let s = shell(kind, 16, 8);
        assert!(s.contains("ddl_cdc_fifo #("), "{:?}", kind);
        assert!(s.contains("ddl_rst_cross u_rst"), "{:?}", kind);
        assert!(s.contains("endmodule"), "{:?}", kind);
    }
}

#[test]
fn which_crossing_belongs_at_a_pipe() {
    assert_eq!(Cdc::at(true, false), Cdc::In);
    assert_eq!(Cdc::at(false, false), Cdc::Out);
    assert_eq!(Cdc::at(true, true), Cdc::ToExtern);
    assert_eq!(Cdc::at(false, true), Cdc::FromExtern);
    assert_eq!(module_name(Cdc::FromExtern, 1, 4), "ddl_cdc_from_ext_1x4");
}

#[test]
fn the_glue_is_one_and_gate_on_the_master_side() {
    let s = shell(Cdc::ToExtern, 8, 4);
    assert!(s.contains("assign f_receive_en    = !rempty && f_can_receive;"), "{}", s);
    assert!(s.contains("output [7:0] f_data_write_in"), "{}", s);
    assert!(s.contains(".wclk(clk), .wrst_n(w_rst_n)"), "{}", s);
    assert!(s.contains("module ddl_cdc_to_ext_8x4 ("), "{}", s);
    assert_eq!(addr_width(0), 32);
}
