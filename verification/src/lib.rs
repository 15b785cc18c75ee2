//! Token-bounded packing of source files into delimited text chunks.
//!
//! The library renders each input file into a delimited block, groups the
//! blocks into token-bounded chunks, splits files that alone exceed the
//! budget, builds a manifest header, and resolves the circular dependency
//! between boundary-marker text and the token budget by a bounded
//! fixed-point iteration.

pub mod chunker;
pub mod config;
pub mod globext;
pub mod header;
pub mod laws;
pub mod output;
pub mod pipeline;
pub mod stream;
pub mod strutil;
pub mod timeutil;
pub mod tokenizer;
pub mod types;
pub mod ui_filter;
pub mod ui_state;
pub mod xml_output;
pub mod xmlesc;

use vstd::prelude::*;

verus! {

} // verus!
