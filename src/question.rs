use std::collections::HashSet;
use vstd::prelude::*;

verus! {

/// One question of the game: the text shown to players and its tags.
#[derive(Debug, PartialEq, Eq)]
pub struct Question {
    pub text: String,
    pub tags: HashSet<String>,
}

impl Question {
    /// A question with the given text and no tags.
    pub fn untagged(text: String) -> (r: Question)
        ensures
            r.text@ == text@,
    {
        Question { text, tags: HashSet::new() }
    }
}

} // verus!
