//! Finding comments in the text of a Turtle document.
//!
//! A comment starts at a `#` that stands outside an IRI, outside a string
//! and behind no backslash. The text is read byte by byte: each of the
//! bytes that matter here is one ASCII character, and no byte of a longer
//! character is one of them.
use vstd::prelude::*;

verus! {

pub const HASH: u8 = 35;

pub const BACKSLASH: u8 = 92;

pub const IRI_OPEN: u8 = 60;

pub const IRI_CLOSE: u8 = 62;

pub const DOUBLE_QUOTE: u8 = 34;

pub const SINGLE_QUOTE: u8 = 39;

/// Where a reader of Turtle text stands.
#[derive(Clone, Copy, Debug)]
pub enum Lexing {
    /// Between the tokens, or in one that is neither an IRI nor a string.
    Plain,
    /// In an IRI, behind its `<`.
    Iri,
    /// In a string that one quote of the given kind opened.
    Short(u8),
    /// In a string that three quotes of the given kind opened.
    Long(u8),
}

/// Three bytes `q` stand at `i`.
pub open spec fn three_at(s: Seq<u8>, i: int, q: u8) -> bool {
    i + 2 < s.len() && s[i] == q && s[i + 1] == q && s[i + 2] == q
}

/// The text from `i` on holds a comment, for a reader that stands at `i`
/// as `state` says.
///
/// Between the tokens `#` starts a comment, a backslash takes the next
/// byte with it, `<<` and `>` are marks of their own, `<` opens an IRI and
/// a quote opens a string: a long one where three of them stand. An IRI
/// ends at `>`. In a string a backslash takes the next byte with it; a
/// short string ends at its quote, a long one at three of them.
pub open spec fn comment_from(s: Seq<u8>, i: int, state: Lexing) -> bool
    decreases s.len() - i,
{
    if i < 0 || i >= s.len() {
        false
    } else {
        let c = s[i];
        match state {
            Lexing::Plain => if c == HASH {
                true
            } else if c == BACKSLASH {
                i + 1 < s.len() && comment_from(s, i + 2, Lexing::Plain)
            } else if c == IRI_OPEN {
                if i + 1 < s.len() && s[i + 1] == IRI_OPEN {
                    comment_from(s, i + 2, Lexing::Plain)
                } else {
                    comment_from(s, i + 1, Lexing::Iri)
                }
            } else if c == DOUBLE_QUOTE || c == SINGLE_QUOTE {
                if three_at(s, i, c) {
                    comment_from(s, i + 3, Lexing::Long(c))
                } else {
                    comment_from(s, i + 1, Lexing::Short(c))
                }
            } else {
                comment_from(s, i + 1, Lexing::Plain)
            },
            Lexing::Iri => if c == IRI_CLOSE {
                comment_from(s, i + 1, Lexing::Plain)
            } else {
                comment_from(s, i + 1, Lexing::Iri)
            },
            Lexing::Short(q) => if c == BACKSLASH {
                i + 1 < s.len() && comment_from(s, i + 2, Lexing::Short(q))
            } else if c == q {
                comment_from(s, i + 1, Lexing::Plain)
            } else {
                comment_from(s, i + 1, Lexing::Short(q))
            },
            Lexing::Long(q) => if c == BACKSLASH {
                i + 1 < s.len() && comment_from(s, i + 2, Lexing::Long(q))
            } else if three_at(s, i, q) {
                comment_from(s, i + 3, Lexing::Plain)
            } else {
                comment_from(s, i + 1, Lexing::Long(q))
            },
        }
    }
}

/// The text holds a comment.
pub open spec fn has_comment(s: Seq<u8>) -> bool {
    comment_from(s, 0, Lexing::Plain)
}

/// Do three bytes `q` stand at `i`?
fn is_three_at(text: &[u8], i: usize, q: u8) -> (r: bool)
    requires
        i < text@.len(),
    ensures
        r == three_at(text@, i as int, q),
{
    text.len() - i > 2 && text[i] == q && text[i + 1] == q && text[i + 2] == q
}

/// Does the text of a Turtle document hold a comment?
pub fn seen_comment(text: &[u8]) -> (r: bool)
    ensures
        r == has_comment(text@),
{
    let n: usize = text.len();
    let mut i: usize = 0;
    let mut state = Lexing::Plain;
    while i < n
        invariant
            n == text@.len(),
            i <= n,
            has_comment(text@) == comment_from(text@, i as int, state),
        decreases n - i,
    {
        let c: u8 = text[i];
        let mut step: usize = 1;
        match state {
            Lexing::Plain => {
                if c == HASH {
                    return true;
                } else if c == BACKSLASH {
                    step = 2;
                } else if c == IRI_OPEN {
                    if n - i > 1 && text[i + 1] == IRI_OPEN {
                        step = 2;
                    } else {
                        state = Lexing::Iri;
                    }
                } else if c == DOUBLE_QUOTE || c == SINGLE_QUOTE {
                    if is_three_at(text, i, c) {
                        step = 3;
                        state = Lexing::Long(c);
                    } else {
                        state = Lexing::Short(c);
                    }
                }
            },
            Lexing::Iri => {
                if c == IRI_CLOSE {
                    state = Lexing::Plain;
                }
            },
            Lexing::Short(q) => {
                if c == BACKSLASH {
                    step = 2;
                } else if c == q {
                    state = Lexing::Plain;
                }
            },
            Lexing::Long(q) => {
                if c == BACKSLASH {
                    step = 2;
                } else if is_three_at(text, i, q) {
                    step = 3;
                    state = Lexing::Plain;
                }
            },
        }
        if n - i < step {
            return false;
        }
        i += step;
    }
    false
}

} // verus!
