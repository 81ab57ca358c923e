//! Conditional inclusion of token blocks.
//!
//! A source text can mark a bracketed block with `++` or `--`. The block marked
//! `++` is kept when the nightly mode is on, the block marked `--` when it is
//! off; a kept block is spliced in without its brackets and a block that is not
//! kept disappears together with its marker.

pub mod laws;
pub mod layout;
pub mod marker;
pub mod scan;
pub mod token;

use crate::marker::rewrite;
use crate::scan::process;
use crate::token::Token;
use vstd::prelude::*;

verus! {

/// Resolves the conditional blocks of `input`.
///
/// `++[ ... ]` stays, without marker and brackets, when `nightly_enabled` is
/// set; `--[ ... ]` stays when it is not. Everything else passes through. The
/// contents of a block that stays and the contents of every other group are
/// resolved in the same way, in the same mode, at any depth. What comes out is
/// [`rewrite`] of what went in.
pub fn nightly(input: Vec<Token>, nightly_enabled: bool) -> (output: Vec<Token>)
    ensures
        output.deep_view() == rewrite(input.deep_view(), nightly_enabled),
{
    process(input, nightly_enabled)
}

} // verus!
