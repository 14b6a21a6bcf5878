//! The errors that services answer with and that clients decide on.

use vstd::prelude::*;

verus! {

/// What went wrong, as far as callers tell errors apart by kind.
#[derive(Clone, Copy, Debug, PartialEq, Eq, Structural)]
pub enum ErrorKind {
    /// No service is bound to the stub that was called.
    NotConnected,
    /// The call does not fit the state of the caller.
    InvalidInput,
    /// Everything else; the message says what.
    Other,
}

/// An error with its message.
#[derive(Clone, Debug)]
pub struct Error {
    pub kind: ErrorKind,
    pub message: String,
}

/// `pattern` occurs somewhere in `text`.
pub open spec fn contains_text(text: Seq<char>, pattern: Seq<char>) -> bool {
    exists|i: int| #[trigger] occurs_at(text, pattern, i)
}

/// `pattern` occurs in `text` at position `i`.
pub open spec fn occurs_at(text: Seq<char>, pattern: Seq<char>, i: int) -> bool {
    0 <= i <= text.len() - pattern.len() && text.subrange(i, i + pattern.len()) == pattern
}

impl Error {
    /// The error has this kind and exactly this message.
    pub open spec fn says(self, kind: ErrorKind, text: Seq<char>) -> bool {
        self.kind == kind && self.message@ == text
    }

    /// The message speaks of a write conflict.
    pub open spec fn reports_write_conflict(self) -> bool {
        contains_text(self.message@, "write conflict"@)
    }

    /// An error of this kind with this message.
    pub fn new(kind: ErrorKind, text: &str) -> (error: Error)
        ensures
            error.says(kind, text@),
            error.kind == kind,
            error.message@ == text@,
    {
        Error { kind, message: text.to_owned() }
    }

    /// Whether the message speaks of a write conflict, which no retry can cure.
    pub fn is_write_conflict(&self) -> (conflict: bool)
        ensures
            conflict == self.reports_write_conflict(),
    {
        text_contains(self.message.as_str(), "write conflict")
    }
}

fn text_chars(text: &str) -> (chars: Vec<char>)
    ensures
        chars@ == text@,
{
    let mut chars: Vec<char> = Vec::new();
    for c in iter: text.chars()
        invariant
            chars@ == iter.seq().take(iter.index()),
    {
        chars.push(c);
        assert(chars@ =~= iter.seq().take(iter.index() + 1));
    }
    assert(chars@ =~= text@);
    chars
}

/// Whether `pattern` occurs in `text`.
pub fn text_contains(text: &str, pattern: &str) -> (found: bool)
    ensures
        found == contains_text(text@, pattern@),
{
    let t = text_chars(text);
    let p = text_chars(pattern);
    if p.len() > t.len() {
        return false;
    }
    let last: usize = t.len() - p.len();
    let mut i: usize = 0;
    while i <= last
        invariant
            t@ == text@,
            p@ == pattern@,
            last == t.len() - p.len(),
            i <= last + 1,
            forall|k: int| 0 <= k < i ==> !#[trigger] occurs_at(text@, pattern@, k),
        decreases last + 1 - i,
    {
        let mut j: usize = 0;
        while j < p.len() && t[i + j] == p[j]
            invariant
                t@ == text@,
                p@ == pattern@,
                i <= last,
                last == t.len() - p.len(),
                j <= p@.len(),
                forall|k: int| 0 <= k < j ==> t@[i + k] == p@[k],
            decreases p@.len() - j,
        {
            j = j + 1;
        }
        if j == p.len() {
            assert(text@.subrange(i as int, i + pattern@.len()) =~= pattern@);
            assert(occurs_at(text@, pattern@, i as int));
            return true;
        }
        assert(text@.subrange(i as int, i + pattern@.len())[j as int] != pattern@[j as int]);
        if i == last {
            return false;
        }
        i = i + 1;
    }
    false
}

/// A pattern occurs in a text exactly if the text is the pattern with something, maybe nothing,
/// before and after it.
pub proof fn lemma_contains_text(text: Seq<char>, pattern: Seq<char>)
    ensures
        contains_text(text, pattern) <==> exists|before: Seq<char>, after: Seq<char>|
            text == #[trigger] (before + pattern + after),
{
    if contains_text(text, pattern) {
        let i = choose|i: int| #[trigger] occurs_at(text, pattern, i);
        let before = text.take(i);
        let after = text.skip(i + pattern.len());
        assert forall|j: int| 0 <= j < text.len() implies text[j] == (before + pattern + after)[j] by {
            if i <= j < i + pattern.len() {
                assert(text.subrange(i, i + pattern.len())[j - i] == pattern[j - i]);
            }
        }
        assert(text =~= before + pattern + after);
    }
    if exists|before: Seq<char>, after: Seq<char>| text == #[trigger] (before + pattern + after) {
        let (before, after) = choose|before: Seq<char>, after: Seq<char>|
            text == #[trigger] (before + pattern + after);
        let i = before.len() as int;
        assert(text.subrange(i, i + pattern.len()) =~= pattern);
        assert(occurs_at(text, pattern, i));
    }
}

/// An error reports a write conflict exactly if its message holds these words, wherever they
/// stand and whatever its kind.
pub proof fn lemma_reports_write_conflict(error: Error)
    ensures
        error.reports_write_conflict() <==> exists|before: Seq<char>, after: Seq<char>|
            error.message@ == #[trigger] (before + "write conflict"@ + after),
{
    lemma_contains_text(error.message@, "write conflict"@);
}

} // verus!
