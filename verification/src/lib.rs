//! RISC-V platform support for Drone, an embedded operating system: the
//! decisions of the machine trap handler and the thread-definition macros,
//! stated and proved over plain values.

use vstd::prelude::*;

pub mod clint_order;
pub mod literal;
pub mod names;
pub mod syntax;
pub mod thr;
pub mod thr_clint;
pub mod token;
pub mod trap;

verus! {

/// Parses the input of the `thr!` macro and computes its expansion: the same
/// as `thr::proc_macro` (see `thr::lemma_expansion_determined`).
pub fn thr(tokens: &Vec<token::Token>) -> (r: Result<thr::Expansion, token::ParseError>)
    requires
        thr::sp_parse(tokens@) matches Ok(inp) ==> thr::sources_positive(inp.threads),
    ensures
        thr::expands(tokens@, r),
{
    thr::proc_macro(tokens)
}

} // verus!
