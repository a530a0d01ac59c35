//! Parsing of JavaScript/TypeScript source and hygienic scope resolution.
//!
//! `parse` reads source text into a module tree. `resolver::resolve` takes a
//! tree of the supported subset (`ast`) and gives every identifier a context
//! tag built from marks of a `registry::ContextRegistry`, so that bindings of
//! one name in different regions stay distinguishable.
use vstd::prelude::*;

pub mod ast;
pub mod parse;
pub mod registry;
pub mod resolver;
pub mod scope;

verus! {

} // verus!
