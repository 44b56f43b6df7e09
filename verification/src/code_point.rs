//! Code points of characters, as the tokenizer orders and keys them.
use vstd::prelude::*;

verus! {

/// The Unicode code point of `c`.
pub open spec fn code_point(c: char) -> u32 {
    c as u32
}

/// A code point is at most 0x10FFFF, and it names its character.
pub broadcast proof fn lemma_code_point(c: char)
    ensures
        #[trigger] code_point(c) as int == c as int,
        code_point(c) <= 0x10FFFF,
{
}

/// Two characters with the same code point are the same character.
pub broadcast proof fn lemma_code_point_injective(c: char, d: char)
    ensures
        #[trigger] code_point(c) == #[trigger] code_point(d) ==> c == d,
{
}

} // verus!
