pub mod ast;
pub mod constraints;
pub mod copying;
pub mod errors;
pub mod eval;
pub mod field;
pub mod gadgets;
pub mod output;
pub mod program;
pub mod r1cs;
pub mod scope;
pub mod value;
