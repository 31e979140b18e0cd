//! Reads a web address as "링크" instead of spelling it out.
use vstd::prelude::*;
use crate::mapper::{Input, Output};
use crate::patterns::{replace_pattern, replaced, Pattern};
use crate::text::chars_of;

verus! {

/// Replaces every `http://` or `https://` address, up to the next white
/// space, by "링크".
pub fn process(input: Input) -> (r: Output)
    ensures
        r.text@ == replaced(Pattern::Url, input.text@),
        r.override_future_mappers is None,
{
    let chars = chars_of(input.text.as_str());
    Output::text(replace_pattern(Pattern::Url, &chars))
}

} // verus!
