//! Derive statically-typed schemas from parsed Fluent localization resources.
//!
//! The crate walks an already-parsed resource tree (modelled by [`ast`]),
//! extracts one schema per message — its attributes, its placeholders and the
//! variant sets inferred from selector expressions — and renders the result as
//! a TypeScript type declaration.

pub mod ast;
pub mod order;
pub mod util;
pub mod parse;
pub mod laws;
pub mod codegen;
