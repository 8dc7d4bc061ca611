//! The line grammar of an environment file, on bytes.
//!
//! ```text
//! leading    := blank* ("export" blank*)?
//! name       := (letter | digit | "_")+
//! value      := (word (blank+ word)*)?
//! word       := (plain | "\" any-byte)+
//! trailing   := every byte up to the line feed
//! assignment := leading name "=" value trailing line-feed?
//! ```
//!
//! Each rule takes as much as it can and never gives anything back: a line
//! that starts with `export=` is no assignment, because `export` has gone to
//! `leading` and no name is left.

use vstd::prelude::*;

verus! {

/// Specifies `nom::character::is_alphabetic`: true exactly of the bytes
/// `A`..=`Z` and `a`..=`z`.
pub assume_specification[ nom::character::is_alphabetic ](chr: u8) -> (yes: bool)
    ensures
        yes == (0x41 <= chr <= 0x5A || 0x61 <= chr <= 0x7A),
;

/// Specifies `nom::character::is_digit`: true exactly of the bytes `0`..=`9`.
pub assume_specification[ nom::character::is_digit ](chr: u8) -> (yes: bool)
    ensures
        yes == (0x30 <= chr <= 0x39),
;

/// Specifies `nom::character::is_space`: true exactly of the space and the
/// horizontal tab.
pub assume_specification[ nom::character::is_space ](chr: u8) -> (yes: bool)
    ensures
        yes == (chr == 0x20 || chr == 0x09),
;

/// Specifies `nom::character::is_newline`: true exactly of the line feed.
pub assume_specification[ nom::character::is_newline ](chr: u8) -> (yes: bool)
    ensures
        yes == (chr == 0x0A),
;

/// Why a stretch of bytes is no assignment, or no line at all.
#[derive(Debug, Clone, Copy, PartialEq, Eq, Structural)]
pub enum ParseError {
    /// No name stands where one is due.
    MissingName,
    /// The name is not followed by `=`.
    MissingEquals,
    /// There is no byte left to make a line of.
    EndOfInput,
}

/// A space or a horizontal tab.
pub open spec fn is_blank(b: u8) -> bool {
    b == 0x20 || b == 0x09
}

/// A byte that a variable's name may hold.
pub open spec fn is_name_byte(b: u8) -> bool {
    0x41 <= b <= 0x5A || 0x61 <= b <= 0x7A || 0x30 <= b <= 0x39 || b == 0x5F
}

/// Any byte but the line feed.
pub open spec fn is_line_byte(b: u8) -> bool {
    b != 0x0A
}

/// A byte that stands for itself in a value: neither blank, nor a line feed,
/// nor `#`, nor a backslash.
pub open spec fn is_plain_byte(b: u8) -> bool {
    b != 0x0A && b != 0x23 && b != 0x20 && b != 0x09 && b != 0x5C
}

/// The bytes of the keyword `export`.
pub open spec fn export_keyword() -> Seq<u8> {
    seq![0x65u8, 0x78u8, 0x70u8, 0x6Fu8, 0x72u8, 0x74u8]
}

/// Where the longest run of bytes of one class that starts at `from` ends.
pub open spec fn run_end(s: Seq<u8>, from: int, class: spec_fn(u8) -> bool) -> int
    decreases s.len() - from,
{
    if 0 <= from < s.len() && class(s[from]) {
        run_end(s, from + 1, class)
    } else {
        from
    }
}

/// Whether `word` stands in `s` at `from`.
pub open spec fn stands_at(s: Seq<u8>, from: int, word: Seq<u8>) -> bool {
    0 <= from && from + word.len() <= s.len() && s.subrange(from, from + word.len()) == word
}

/// Where `leading` ends: after blanks, an optional `export`, and blanks again.
pub open spec fn leading_end(s: Seq<u8>) -> int {
    let keyword = run_end(s, 0, |b: u8| is_blank(b));
    if stands_at(s, keyword, export_keyword()) {
        run_end(s, keyword + 6, |b: u8| is_blank(b))
    } else {
        keyword
    }
}

/// Where the piece of a word that starts at `from` ends: one plain byte, or a
/// backslash with the byte behind it; `from` itself where neither stands.
pub open spec fn piece_end(s: Seq<u8>, from: int) -> int {
    if 0 <= from < s.len() && is_plain_byte(s[from]) {
        from + 1
    } else if 0 <= from && from + 1 < s.len() && s[from] == 0x5C {
        from + 2
    } else {
        from
    }
}

/// Where the longest word that starts at `from` ends; `from` itself where
/// no word starts.
pub open spec fn word_end(s: Seq<u8>, from: int) -> int
    decreases s.len() - from,
{
    let next = piece_end(s, from);
    if from < next {
        word_end(s, next)
    } else {
        from
    }
}

/// Where a value ends of which the words up to `end` have been taken: blanks
/// belong to the value only where another word follows them.
pub open spec fn more_words_end(s: Seq<u8>, end: int) -> int
    decreases s.len() - end,
{
    let word = run_end(s, end, |b: u8| is_blank(b));
    let next = word_end(s, word);
    if end < word < next <= s.len() {
        more_words_end(s, next)
    } else {
        end
    }
}

/// Where the value that starts at `from` ends; `from` itself for the empty
/// value.
pub open spec fn value_end(s: Seq<u8>, from: int) -> int {
    let first = word_end(s, from);
    if from < first {
        more_words_end(s, first)
    } else {
        from
    }
}

/// A run is made of bytes of its class and stops at the first other byte.
pub proof fn lemma_run_end(s: Seq<u8>, from: int, class: spec_fn(u8) -> bool)
    requires
        0 <= from <= s.len(),
    ensures
        from <= run_end(s, from, class) <= s.len(),
        forall|i: int| from <= i < run_end(s, from, class) ==> class(#[trigger] s[i]),
        run_end(s, from, class) < s.len() ==> !class(s[run_end(s, from, class)]),
    decreases s.len() - from,
{
    if from < s.len() && class(s[from]) {
        lemma_run_end(s, from + 1, class);
    }
}

/// `leading` ends inside the input.
pub proof fn lemma_leading_end(s: Seq<u8>)
    ensures
        0 <= leading_end(s) <= s.len(),
{
    lemma_run_end(s, 0, |b: u8| is_blank(b));
    let keyword = run_end(s, 0, |b: u8| is_blank(b));
    if stands_at(s, keyword, export_keyword()) {
        lemma_run_end(s, keyword + 6, |b: u8| is_blank(b));
    }
}

/// A word ends inside the input, at a byte that cannot go on with it.
pub proof fn lemma_word_end(s: Seq<u8>, from: int)
    requires
        0 <= from <= s.len(),
    ensures
        from <= word_end(s, from) <= s.len(),
        piece_end(s, word_end(s, from)) == word_end(s, from),
    decreases s.len() - from,
{
    if from < piece_end(s, from) {
        lemma_word_end(s, piece_end(s, from));
    }
}

/// A value ends inside the input, where a word ends or where none starts.
pub proof fn lemma_value_end(s: Seq<u8>, from: int)
    requires
        0 <= from <= s.len(),
    ensures
        from <= value_end(s, from) <= s.len(),
        piece_end(s, value_end(s, from)) == value_end(s, from),
{
    lemma_word_end(s, from);
    if from < word_end(s, from) {
        lemma_more_words_end(s, word_end(s, from));
    }
}

proof fn lemma_more_words_end(s: Seq<u8>, end: int)
    requires
        0 <= end <= s.len(),
        piece_end(s, end) == end,
    ensures
        end <= more_words_end(s, end) <= s.len(),
        piece_end(s, more_words_end(s, end)) == more_words_end(s, end),
    decreases s.len() - end,
{
    let word = run_end(s, end, |b: u8| is_blank(b));
    lemma_run_end(s, end, |b: u8| is_blank(b));
    lemma_word_end(s, word);
    let next = word_end(s, word);
    if end < word < next <= s.len() {
        lemma_more_words_end(s, next);
    }
}

/// Skips the blanks that start at `from`.
fn skip_blanks(line: &[u8], from: usize) -> (end: usize)
    requires
        from <= line.len(),
    ensures
        end == run_end(line@, from as int, |b: u8| is_blank(b)),
        from <= end <= line.len(),
{
    let mut end = from;
    while end < line.len() && nom::character::is_space(line[end])
        invariant
            from <= end <= line.len(),
            run_end(line@, from as int, |b: u8| is_blank(b)) == run_end(
                line@,
                end as int,
                |b: u8| is_blank(b),
            ),
        decreases line.len() - end,
    {
        end = end + 1;
    }
    end
}

/// Tells whether the keyword `export` stands at `from`.
fn export_stands_at(line: &[u8], from: usize) -> (yes: bool)
    requires
        from <= line.len(),
    ensures
        yes == stands_at(line@, from as int, export_keyword()),
{
    if line.len() - from < 6 {
        return false;
    }
    let yes = line[from] == 0x65 && line[from + 1] == 0x78 && line[from + 2] == 0x70 && line[from
        + 3] == 0x6F && line[from + 4] == 0x72 && line[from + 5] == 0x74;
    proof {
        let found = line@.subrange(from as int, from + 6);
        if yes {
            assert(found =~= export_keyword());
        } else {
            assert(found[0] == line@[from as int]);
            assert(found[1] == line@[from + 1]);
            assert(found[2] == line@[from + 2]);
            assert(found[3] == line@[from + 3]);
            assert(found[4] == line@[from + 4]);
            assert(found[5] == line@[from + 5]);
        }
    }
    yes
}

/// Finds where the text before the name ends.
pub fn leading_characters(line: &[u8]) -> (end: usize)
    ensures
        end == leading_end(line@),
        end <= line.len(),
{
    let keyword = skip_blanks(line, 0);
    if export_stands_at(line, keyword) {
        skip_blanks(line, keyword + 6)
    } else {
        keyword
    }
}

/// Finds where the name that starts at `from` ends.
pub fn declaration_key(line: &[u8], from: usize) -> (r: Result<usize, ParseError>)
    requires
        from <= line.len(),
    ensures
        match r {
            Ok(end) => from < end <= line.len() && end == run_end(
                line@,
                from as int,
                |b: u8| is_name_byte(b),
            ),
            Err(e) => e == ParseError::MissingName && run_end(
                line@,
                from as int,
                |b: u8| is_name_byte(b),
            ) == from,
        },
{
    let mut end = from;
    while end < line.len() && (nom::character::is_alphabetic(line[end])
        || nom::character::is_digit(line[end]) || line[end] == 0x5F)
        invariant
            from <= end <= line.len(),
            run_end(line@, from as int, |b: u8| is_name_byte(b)) == run_end(
                line@,
                end as int,
                |b: u8| is_name_byte(b),
            ),
        decreases line.len() - end,
    {
        end = end + 1;
    }
    if end == from {
        Err(ParseError::MissingName)
    } else {
        Ok(end)
    }
}

/// Finds where the longest word that starts at `from` ends.
fn skip_word(line: &[u8], from: usize) -> (end: usize)
    requires
        from <= line.len(),
    ensures
        end == word_end(line@, from as int),
        from <= end <= line.len(),
{
    let mut end = from;
    loop
        invariant
            from <= end <= line.len(),
            word_end(line@, from as int) == word_end(line@, end as int),
        ensures
            from <= end <= line.len(),
            end == word_end(line@, from as int),
        decreases line.len() - end,
    {
        if end < line.len() && line[end] != 0x0A && line[end] != 0x23 && line[end] != 0x20
            && line[end] != 0x09 && line[end] != 0x5C {
            end = end + 1;
        } else if line.len() - end >= 2 && line[end] == 0x5C {
            end = end + 2;
        } else {
            break ;
        }
    }
    end
}

/// Finds where the value that starts at `from` ends.
pub fn declaration_value(line: &[u8], from: usize) -> (end: usize)
    requires
        from <= line.len(),
    ensures
        end == value_end(line@, from as int),
        from <= end <= line.len(),
{
    let mut end = skip_word(line, from);
    if end == from {
        return from;
    }
    loop
        invariant
            from <= end <= line.len(),
            value_end(line@, from as int) == more_words_end(line@, end as int),
        ensures
            from <= end <= line.len(),
            end == value_end(line@, from as int),
        decreases line.len() - end,
    {
        let word = skip_blanks(line, end);
        let next = skip_word(line, word);
        if end < word && word < next {
            end = next;
        } else {
            break ;
        }
    }
    end
}

/// Finds where the line that goes on at `from` ends: at its line feed, or at
/// the end of the input.
pub fn following_characters(line: &[u8], from: usize) -> (end: usize)
    requires
        from <= line.len(),
    ensures
        end == run_end(line@, from as int, |b: u8| is_line_byte(b)),
        from <= end <= line.len(),
        end < line.len() ==> line@[end as int] == 0x0A,
{
    let mut end = from;
    while end < line.len() && !nom::character::is_newline(line[end])
        invariant
            from <= end <= line.len(),
            run_end(line@, from as int, |b: u8| is_line_byte(b)) == run_end(
                line@,
                end as int,
                |b: u8| is_line_byte(b),
            ),
        decreases line.len() - end,
    {
        end = end + 1;
    }
    end
}

} // verus!
