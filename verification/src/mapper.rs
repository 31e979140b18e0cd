//! The request and reply of a mapper: the text to be spoken, and the text a
//! mapper hands on together with what it asks of the rest of the pipeline.
use vstd::prelude::*;

verus! {

/// A user-defined replacement: every match of `pattern` becomes `replacement`.
pub struct TextRule {
    pub pattern: String,
    pub replacement: String,
    pub case_sensitive: bool,
}

/// The replacement rules configured for a conversation.
pub struct MappingList {
    pub text_rules: Vec<TextRule>,
}

/// What a mapper reads of a request: the message text and, where configured,
/// the user's replacement rules.
pub struct Input {
    pub text: String,
    pub mapping_list: Option<MappingList>,
}

/// What a mapper returns: the new text and, when set, the mappers that are to
/// run after this one (an empty list stops the pipeline).
pub struct Output {
    pub text: String,
    pub override_future_mappers: Option<Vec<String>>,
}

impl Output {
    /// Replies with `text` and leaves the rest of the pipeline as it is.
    pub fn text(text: String) -> (r: Output)
        ensures
            r.text@ == text@,
            r.override_future_mappers is None,
    {
        Output { text, override_future_mappers: None }
    }

    /// The same reply, with the mappers that are to run after this one replaced by `mappers`.
    pub fn override_pipeline(self, mappers: Vec<String>) -> (r: Output)
        ensures
            r.text@ == self.text@,
            r.override_future_mappers == Some(mappers),
    {
        Output { text: self.text, override_future_mappers: Some(mappers) }
    }
}

} // verus!
