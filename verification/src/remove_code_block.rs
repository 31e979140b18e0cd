//! Reads a fenced code block as "코드" instead of reading the code.
use vstd::prelude::*;
use crate::mapper::{Input, Output};
use crate::patterns::{replace_pattern, replaced, Pattern};
use crate::text::chars_of;

verus! {

/// Replaces every block from three backticks to the next three backticks
/// (line breaks included) by "코드".
pub fn process(input: Input) -> (r: Output)
    ensures
        r.text@ == replaced(Pattern::CodeBlock, input.text@),
        r.override_future_mappers is None,
{
    let chars = chars_of(input.text.as_str());
    Output::text(replace_pattern(Pattern::CodeBlock, &chars))
}

} // verus!
