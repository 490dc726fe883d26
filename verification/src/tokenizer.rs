//! Vocabulary entries.

use vstd::prelude::*;

verus! {

/// An entry of a vocabulary that is sorted by its strings: the first byte
/// of a token's string, and the token's id.
#[derive(Debug)]
pub struct TokenIndex {
    pub str: Box<u8>,
    pub id: i32,
}

} // verus!
