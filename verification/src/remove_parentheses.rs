//! Drops parenthesized asides, which are usually not meant to be read aloud.
use vstd::prelude::*;
use crate::mapper::{Input, Output};
use crate::patterns::{replace_pattern, replaced, Pattern};
use crate::text::chars_of;

verus! {

/// Removes every `( ... )`, from an opening parenthesis to the first closing
/// one after it ("안녕(하세요)" becomes "안녕").
pub fn process(input: Input) -> (r: Output)
    ensures
        r.text@ == replaced(Pattern::Parenthesized, input.text@),
        r.override_future_mappers is None,
{
    let chars = chars_of(input.text.as_str());
    Output::text(replace_pattern(Pattern::Parenthesized, &chars))
}

} // verus!
