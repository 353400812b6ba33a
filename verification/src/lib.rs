use vstd::prelude::*;

pub mod fuzzy;
pub mod text;
pub mod lex;
pub mod strmap;
pub mod index;
pub mod storage;
pub mod analyzer;
pub mod engine;
pub mod config;
pub mod server;

verus! {

} // verus!
