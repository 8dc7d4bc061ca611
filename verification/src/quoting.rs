//! Single-quoting of arbitrary text for a POSIX shell.

use vstd::prelude::*;
use crate::text::push_char;

verus! {

broadcast use vstd::string::group_string_axioms;

/// What a single quote inside a single-quoted word is written as: close the
/// quote, emit a double-quoted single quote, reopen the quote.
pub open spec fn escaped_quote() -> Seq<char> {
    seq!['\'', '"', '\'', '"', '\'']
}

/// `s` with every single quote replaced by [`escaped_quote`].
pub open spec fn shell_escaped(s: Seq<char>) -> Seq<char>
    decreases s.len(),
{
    if s.len() == 0 {
        Seq::empty()
    } else if s.last() == '\'' {
        shell_escaped(s.drop_last()) + escaped_quote()
    } else {
        shell_escaped(s.drop_last()).push(s.last())
    }
}

/// `s` as one single-quoted shell word.
pub open spec fn single_quoted(s: Seq<char>) -> Seq<char> {
    seq!['\''] + shell_escaped(s) + seq!['\'']
}

/// Wraps `s` in single quotes so that a POSIX shell reads it back verbatim.
pub fn single_quote_str_for_shell(s: &str) -> (quoted: String)
    ensures
        quoted@ == single_quoted(s@),
{
    let mut quoted = String::new();
    push_char(&mut quoted, '\'');
    for c in it: s.chars()
        invariant
            it.seq() == s@,
            quoted@ == seq!['\''] + shell_escaped(s@.take(it.index() as int)),
    {
        proof {
            let done = s@.take(it.index() as int);
            let next = s@.take(it.index() + 1);
            assert(next.drop_last() == done);
            assert(next.last() == c);
        }
        if c == '\'' {
            push_char(&mut quoted, '\'');
            push_char(&mut quoted, '"');
            push_char(&mut quoted, '\'');
            push_char(&mut quoted, '"');
            push_char(&mut quoted, '\'');
        } else {
            push_char(&mut quoted, c);
        }
    }
    assert(s@.take(s@.len() as int) == s@);
    push_char(&mut quoted, '\'');
    quoted
}

} // verus!
