//! The lines of an environment file: assignments, whose value can be
//! changed, and everything else, which is kept as it was read.

use vstd::prelude::*;
use vstd::slice::slice_subrange;
use vstd::string::StringExecFns;
use crate::grammar::{
    declaration_key, declaration_value, following_characters, is_line_byte, is_name_byte,
    leading_characters, leading_end, run_end, value_end, ParseError,
};
use crate::text::{decode_lossy, lossy_text, push_char};

verus! {

/// What an assignment line holds.
pub struct StatementView {
    /// The variable's name.
    pub key: Seq<char>,
    /// The variable's value, as written in the file.
    pub value: Seq<char>,
    /// What stands before the name.
    pub leading: Seq<char>,
    /// What stands behind the value, without the line feed.
    pub trailing: Seq<char>,
}

/// What a line holds.
pub enum LineView {
    /// A line that assigns a value to a variable.
    Assignment(StatementView),
    /// Any other line, with its line feed.
    Opaque(Seq<char>),
}

/// Where the parts of an assignment line lie in the bytes it was read from.
pub struct StatementShape {
    /// Where the name starts, which is where `leading` ends.
    pub name_start: int,
    /// Where the name ends; `=` stands here.
    pub name_end: int,
    /// Where the value ends, which is where `trailing` starts.
    pub value_end: int,
    /// Where `trailing` ends: at the line feed, or at the end of the input.
    pub text_end: int,
    /// Where the next line starts.
    pub next: int,
}

/// Where the line that a line's text ends at `text_end` hands over to the
/// next one: behind its line feed, if it has one.
pub open spec fn behind_line_feed(s: Seq<u8>, text_end: int) -> int {
    if text_end < s.len() {
        text_end + 1
    } else {
        text_end
    }
}

/// The shape of the assignment that `s` starts with, or why it starts with
/// none.
pub open spec fn statement_shape(s: Seq<u8>) -> Result<StatementShape, ParseError> {
    let name_start = leading_end(s);
    let name_end = run_end(s, name_start, |b: u8| is_name_byte(b));
    if name_end == name_start {
        Err(ParseError::MissingName)
    } else if !(name_end < s.len() && s[name_end] == 0x3D) {
        Err(ParseError::MissingEquals)
    } else {
        let value_end = value_end(s, name_end + 1);
        let text_end = run_end(s, value_end, |b: u8| is_line_byte(b));
        Ok(
            StatementShape {
                name_start,
                name_end,
                value_end,
                text_end,
                next: behind_line_feed(s, text_end),
            },
        )
    }
}

/// The assignment that lies in `s` in the given shape.
pub open spec fn statement_fields(s: Seq<u8>, shape: StatementShape) -> StatementView {
    StatementView {
        key: lossy_text(s.subrange(shape.name_start, shape.name_end)),
        value: lossy_text(s.subrange(shape.name_end + 1, shape.value_end)),
        leading: lossy_text(s.subrange(0, shape.name_start)),
        trailing: lossy_text(s.subrange(shape.value_end, shape.text_end)),
    }
}

/// Where the text of the line that `s` starts with ends, when that line is
/// no assignment.
pub open spec fn opaque_text_end(s: Seq<u8>) -> int {
    run_end(s, 0, |b: u8| is_line_byte(b))
}

/// The first line of `s`, which must not be empty.
pub open spec fn first_line(s: Seq<u8>) -> LineView {
    match statement_shape(s) {
        Ok(shape) => LineView::Assignment(statement_fields(s, shape)),
        Err(_) => LineView::Opaque(lossy_text(s.subrange(0, opaque_text_end(s))).push('\n')),
    }
}

/// How many bytes the first line of `s` takes.
pub open spec fn first_line_len(s: Seq<u8>) -> int {
    match statement_shape(s) {
        Ok(shape) => shape.next,
        Err(_) => behind_line_feed(s, opaque_text_end(s)),
    }
}

/// The lines that `s` is made of.
pub open spec fn document(s: Seq<u8>) -> Seq<LineView>
    decreases s.len(),
{
    let n = first_line_len(s);
    if s.len() == 0 {
        Seq::empty()
    } else if 0 < n <= s.len() {
        seq![first_line(s)] + document(s.skip(n))
    } else {
        seq![first_line(s)]
    }
}

/// The text of an assignment line.
pub open spec fn statement_text(v: StatementView) -> Seq<char> {
    v.leading + v.key + seq!['='] + v.value + v.trailing + seq!['\n']
}

/// The text of a line.
pub open spec fn line_text(line: LineView) -> Seq<char> {
    match line {
        LineView::Assignment(v) => statement_text(v),
        LineView::Opaque(text) => text,
    }
}

/// The text of a document: the text of its lines, one after the other.
pub open spec fn document_text(doc: Seq<LineView>) -> Seq<char>
    decreases doc.len(),
{
    if doc.len() == 0 {
        Seq::empty()
    } else {
        document_text(doc.drop_last()) + line_text(doc.last())
    }
}

/// The parts of an assignment lie one behind the other inside the input.
pub proof fn lemma_statement_shape(s: Seq<u8>)
    ensures
        match statement_shape(s) {
            Ok(shape) => {
                &&& 0 <= shape.name_start < shape.name_end < shape.value_end + 1
                &&& shape.value_end <= shape.text_end <= shape.next <= s.len()
                &&& shape.next == behind_line_feed(s, shape.text_end)
                &&& s[shape.name_end] == 0x3D
                &&& shape.text_end < s.len() ==> s[shape.text_end] == 0x0A
            },
            Err(_) => true,
        },
{
    crate::grammar::lemma_leading_end(s);
    let name_start = leading_end(s);
    crate::grammar::lemma_run_end(s, name_start, |b: u8| is_name_byte(b));
    let name_end = run_end(s, name_start, |b: u8| is_name_byte(b));
    if name_end != name_start && name_end < s.len() && s[name_end] == 0x3D {
        crate::grammar::lemma_value_end(s, name_end + 1);
        crate::grammar::lemma_run_end(s, value_end(s, name_end + 1), |b: u8| is_line_byte(b));
    }
}

/// A line takes at least one byte of a non-empty input, and no more than
/// there are.
pub proof fn lemma_first_line_len(s: Seq<u8>)
    requires
        s.len() > 0,
    ensures
        0 < first_line_len(s) <= s.len(),
{
    lemma_statement_shape(s);
    crate::grammar::lemma_run_end(s, 0, |b: u8| is_line_byte(b));
}

/// An assignment of a value to a variable, with the text around it.
#[derive(Debug, Clone)]
pub struct EnvStatement {
    pub key: String,
    pub value: String,
    pub leading_characters: String,
    pub following_characters: String,
}

impl View for EnvStatement {
    type V = StatementView;

    open spec fn view(&self) -> StatementView {
        StatementView {
            key: self.key@,
            value: self.value@,
            leading: self.leading_characters@,
            trailing: self.following_characters@,
        }
    }
}

impl EnvStatement {
    /// Reads the assignment that `line` starts with and hands back what
    /// follows it.
    pub fn parse(line: &[u8]) -> (r: Result<(&[u8], EnvStatement), ParseError>)
        ensures
            match r {
                Ok((rest, statement)) => {
                    &&& statement_shape(line@) matches Ok(shape)
                    &&& rest@ == line@.skip(shape.next)
                    &&& statement@ == statement_fields(line@, shape)
                },
                Err(e) => statement_shape(line@) == Err::<StatementShape, ParseError>(e),
            },
    {
        let name_start = leading_characters(line);
        let name_end = declaration_key(line, name_start)?;
        if !(name_end < line.len() && line[name_end] == 0x3D) {
            return Err(ParseError::MissingEquals);
        }
        let value_end = declaration_value(line, name_end + 1);
        let text_end = following_characters(line, value_end);
        let next = if text_end < line.len() {
            text_end + 1
        } else {
            text_end
        };
        let statement = EnvStatement {
            key: decode_lossy(slice_subrange(line, name_start, name_end)),
            value: decode_lossy(slice_subrange(line, name_end + 1, value_end)),
            leading_characters: decode_lossy(slice_subrange(line, 0, name_start)),
            following_characters: decode_lossy(slice_subrange(line, value_end, text_end)),
        };
        Ok((slice_subrange(line, next, line.len()), statement))
    }

    /// The line as it is written to the file.
    pub fn serialize(&self) -> (text: String)
        ensures
            text@ == statement_text(self@),
    {
        let mut serialized_line = self.leading_characters.clone();
        serialized_line.append(self.key.as_str());
        push_char(&mut serialized_line, '=');
        serialized_line.append(self.value.as_str());
        serialized_line.append(self.following_characters.as_str());
        push_char(&mut serialized_line, '\n');
        serialized_line
    }
}

/// One line of an environment file.
#[derive(Debug, Clone)]
pub enum EnvFileLine {
    /// An assignment.
    Env(EnvStatement),
    /// Any other line, with its line feed.
    Other(String),
}

impl View for EnvFileLine {
    type V = LineView;

    open spec fn view(&self) -> LineView {
        match self {
            EnvFileLine::Env(statement) => LineView::Assignment(statement@),
            EnvFileLine::Other(text) => LineView::Opaque(text@),
        }
    }
}

impl EnvFileLine {
    /// Reads the line that `line` starts with and hands back what follows
    /// it. Only an empty input holds no line.
    pub fn parse(line: &[u8]) -> (r: Result<(&[u8], EnvFileLine), ParseError>)
        ensures
            match r {
                Ok((rest, parsed)) => {
                    &&& line@.len() > 0
                    &&& rest@ == line@.skip(first_line_len(line@))
                    &&& parsed@ == first_line(line@)
                },
                Err(e) => line@.len() == 0 && e == ParseError::EndOfInput,
            },
    {
        match EnvStatement::parse(line) {
            Ok((rest, statement)) => {
                proof {
                    lemma_statement_shape(line@);
                }
                Ok((rest, EnvFileLine::Env(statement)))
            },
            Err(_) => {
                if line.len() == 0 {
                    return Err(ParseError::EndOfInput);
                }
                let text_end = following_characters(line, 0);
                let next = if text_end < line.len() {
                    text_end + 1
                } else {
                    text_end
                };
                let mut text = decode_lossy(slice_subrange(line, 0, text_end));
                push_char(&mut text, '\n');
                Ok((slice_subrange(line, next, line.len()), EnvFileLine::Other(text)))
            },
        }
    }

    /// The line as it is written to the file.
    pub fn serialize(&self) -> (text: String)
        ensures
            text@ == line_text(self@),
    {
        match self {
            EnvFileLine::Env(env) => env.serialize(),
            EnvFileLine::Other(other) => other.clone(),
        }
    }
}

/// The lines of an environment file, in the order of the file.
#[derive(Debug, Clone)]
pub struct EnvFileLines(pub Vec<EnvFileLine>);

impl Default for EnvFileLines {
    fn default() -> (lines: Self)
        ensures
            lines@ == Seq::<LineView>::empty(),
    {
        let lines = EnvFileLines(Vec::new());
        assert(lines@ =~= Seq::<LineView>::empty());
        lines
    }
}

impl std::ops::Deref for EnvFileLines {
    type Target = Vec<EnvFileLine>;

    fn deref(&self) -> (lines: &Vec<EnvFileLine>)
        ensures
            *lines == self.0,
    {
        &self.0
    }
}

impl View for EnvFileLines {
    type V = Seq<LineView>;

    open spec fn view(&self) -> Seq<LineView> {
        Seq::new(self.0@.len(), |i: int| self.0@[i]@)
    }
}

impl EnvFileLines {
    /// Reads a whole file. Every input is made of lines, so this never
    /// fails and leaves nothing over.
    pub fn parse(input: &[u8]) -> (r: Result<(&[u8], EnvFileLines), ParseError>)
        ensures
            r matches Ok((rest, lines)) && rest@.len() == 0 && lines@ == document(input@),
    {
        let mut lines: Vec<EnvFileLine> = Vec::new();
        let mut rest = input;
        while rest.len() > 0
            invariant
                document(input@) == Seq::new(lines@.len(), |i: int| lines@[i]@) + document(rest@),
            decreases rest.len(),
        {
            let ghost before = Seq::new(lines@.len(), |i: int| lines@[i]@);
            let ghost old_rest = rest@;
            proof {
                lemma_first_line_len(rest@);
            }
            match EnvFileLine::parse(rest) {
                Ok((next, line)) => {
                    lines.push(line);
                    rest = next;
                },
                Err(e) => {
                    return Err(e);
                },
            }
            proof {
                let after = Seq::new(lines@.len(), |i: int| lines@[i]@);
                assert(after =~= before + seq![first_line(old_rest)]);
                assert(before + (seq![first_line(old_rest)] + document(rest@)) =~= after
                    + document(rest@));
            }
        }
        let parsed = EnvFileLines(lines);
        assert(parsed@ =~= parsed@ + document(rest@));
        Ok((rest, parsed))
    }

    /// The file as it is written back.
    pub fn serialize(&self) -> (text: String)
        ensures
            text@ == document_text(self@),
    {
        let mut text = String::new();
        let mut i: usize = 0;
        while i < self.0.len()
            invariant
                i <= self.0.len(),
                text@ == document_text(self@.take(i as int)),
            decreases self.0.len() - i,
        {
            let line = self.0[i].serialize();
            proof {
                assert(self@.take(i + 1).drop_last() == self@.take(i as int));
                assert(self@.take(i + 1).last() == self.0@[i as int]@);
            }
            text.append(line.as_str());
            i = i + 1;
        }
        assert(self@.take(i as int) == self@);
        text
    }
}

} // verus!
