//! Reads Markdown markup the way a person would say it.
use vstd::prelude::*;
use crate::mapper::{Input, Output};
use crate::patterns::{replace_pattern, replaced, Pattern};
use crate::text::chars_of;

verus! {

/// Keeps the text of `~~struck~~` passages without the tildes, then reads a
/// link `[label](target)` as "링크와 함께 label".
pub fn process(input: Input) -> (r: Output)
    ensures
        r.text@ == replaced(Pattern::MarkdownLink, replaced(Pattern::Strikethrough, input.text@)),
        r.override_future_mappers is None,
{
    let chars = chars_of(input.text.as_str());
    let text = replace_pattern(Pattern::Strikethrough, &chars);
    let chars = chars_of(text.as_str());
    Output::text(replace_pattern(Pattern::MarkdownLink, &chars))
}

} // verus!
