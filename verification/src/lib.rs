//! DDL: dataflow descriptions compiled to synthesizable Verilog.

pub mod text;
pub mod ty;
pub mod ir;
pub mod env;
pub mod diag;
pub mod lowerer;
pub mod ir_fsm;
pub mod ir_comb;
pub mod ir_adapt;
pub mod ir_cdc_lib;
pub mod fmt;
pub mod driver;
pub mod lower_path;
pub mod lower_mem;
pub mod ir_graph;
pub mod ir_export;
pub mod sort;
pub mod render;
pub mod dot;
pub mod ir_pipe;
pub mod ir_match;
pub mod ir_graph_cycles;
pub mod lower_extend;
pub mod syntax;
pub mod process;
