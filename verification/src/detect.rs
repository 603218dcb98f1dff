//! Input format detection.
use crate::text::{chars_of, first_non_space, first_non_space_index, lemma_first_non_space};
use vstd::prelude::*;

verus! {

#[derive(Debug, Clone, Copy, PartialEq, Eq)]
pub enum Format {
    Json,
    Xml,
    Yaml,
}

/// The format of `input` by its first non-white-space character: `<` is
/// XML, anything else JSON; nothing at all (empty or blank input) is `None`.
pub open spec fn detected_format(input: Seq<char>) -> Option<Format> {
    let i = first_non_space(input);
    if i >= input.len() {
        None
    } else if input[i] == '<' {
        Some(Format::Xml)
    } else {
        Some(Format::Json)
    }
}

pub fn detect_format(input: &str) -> (r: Option<Format>)
    ensures
        r == detected_format(input@),
{
    let chars = chars_of(input);
    let i = first_non_space_index(chars.as_slice());
    proof {
        lemma_first_non_space(input@);
    }
    if i >= chars.len() {
        None
    } else if chars[i] == '<' {
        Some(Format::Xml)
    } else {
        Some(Format::Json)
    }
}

} // verus!
