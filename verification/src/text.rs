//! Validation of submitted question text.
//!
//! The policy: after trimming surrounding whitespace the text must be
//! non-empty and must still contain a space, i.e. it must hold at least two
//! whitespace-separated words. Whitespace here means the ASCII blanks
//! (space, tab, line feed, carriage return).

use vstd::prelude::*;

verus! {

/// An ASCII blank: what trimming strips from the ends of submitted text.
pub open spec fn is_blank(c: char) -> bool {
    c == ' ' || c == '\t' || c == '\n' || c == '\r'
}

/// Text is acceptable when some space sits strictly between two non-blank
/// characters: then the trimmed text is non-empty and contains a space,
/// which is to say it holds at least two words.
pub open spec fn valid_question_text(s: Seq<char>) -> bool {
    exists|i: int, j: int, k: int|
        0 <= i < j < k < s.len() && !is_blank(s[i]) && s[j] == ' ' && !is_blank(s[k])
}

/// Decides whether submitted question text passes validation.
pub fn question_text_ok(s: &str) -> (r: bool)
    ensures
        r == valid_question_text(s@),
{
    let n = s.unicode_len();
    // word: a non-blank character has appeared
    let mut word = false;
    // word_space: a non-blank character followed (not necessarily adjacently)
    // by a space has appeared
    let mut word_space = false;
    let mut valid = false;
    let mut pos: usize = 0;
    while pos < n
        invariant
            pos <= n,
            n == s@.len(),
            word == exists|i: int| 0 <= i < pos && !is_blank(s@[i]),
            word_space == exists|i: int, j: int|
                0 <= i < j < pos && !is_blank(s@[i]) && s@[j] == ' ',
            valid == exists|i: int, j: int, k: int|
                0 <= i < j < k < pos && !is_blank(s@[i]) && s@[j] == ' ' && !is_blank(s@[k]),
        decreases n - pos,
    {
        let c = s.get_char(pos);
        let blank = c == ' ' || c == '\t' || c == '\n' || c == '\r';
        if word_space && !blank {
            valid = true;
        }
        if word && c == ' ' {
            word_space = true;
        }
        if !blank {
            word = true;
        }
        pos += 1;
    }
    valid
}

} // verus!
