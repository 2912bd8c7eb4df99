//! A small imperative scripting language: lowering of parsed programs into a
//! flat goto/label instruction list, and a step-wise interpreter over one flat
//! byte memory shared by static data and variables.
pub mod ast;
pub mod error;
pub mod execution;
pub mod grammar;
pub mod intermediate_repr;
pub mod interpreter;
pub mod intrinsics;
pub mod memory;
pub mod name_table;
pub mod raster;
pub mod state;
pub mod text;
pub mod util;
