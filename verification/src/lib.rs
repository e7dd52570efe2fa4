//! A runtime for Unison code: a store of terms and types, a compiler of terms
//! to stack-machine instructions, and a translation of terms to Scheme.

pub mod types;
pub mod model;
pub mod copy;
pub mod walk;
pub mod sets;
pub mod env;
pub mod ir;
pub mod labels;
pub mod nesting;
pub mod fuel;
pub mod ir_laws;
pub mod text;
pub mod chicken;
