//! An environment file as a document that can be edited: the value of a
//! variable is read from, and written to, the last line that assigns it,
//! and nothing else is touched.

use vstd::prelude::*;
use vstd::hash_map::StringHashMap;
use vstd::pervasive::unreached;
use crate::grammar::ParseError;
use crate::lines::{
    document, document_text, EnvFileLine, EnvFileLines, EnvStatement, LineView, StatementView,
};
use crate::path::{parsed_path, path_text, with_dir, PathVariable};
use crate::quoting::{single_quote_str_for_shell, single_quoted};

verus! {

broadcast use vstd::string::group_string_axioms;

/// The value that `PATH` is taken to have in a file that does not set it.
pub const DEFAULT_PATH: &'static str =
    "'/usr/local/sbin:/usr/local/bin:/usr/sbin:/usr/bin:/sbin:/bin:/usr/games:/usr/local/games'";

/// Why a value or a directory is not stored.
#[derive(Debug, Clone, Copy, PartialEq, Eq, Structural)]
pub enum ArgumentError {
    /// The value holds a line feed or a backslash.
    UnsafeValue,
    /// The directory holds a quote, a backslash or a line feed.
    UnsafeDirectory,
}

/// Whether `line` assigns a value to `key`.
pub open spec fn assigns(line: LineView, key: Seq<char>) -> bool {
    line matches LineView::Assignment(statement) && statement.key == key
}

/// The position of the last line that assigns a value to `key`.
pub open spec fn last_assignment(doc: Seq<LineView>, key: Seq<char>) -> Option<int>
    decreases doc.len(),
{
    if doc.len() == 0 {
        None
    } else if assigns(doc.last(), key) {
        Some(doc.len() - 1)
    } else {
        last_assignment(doc.drop_last(), key)
    }
}

/// The value that a line assigns; empty for a line that assigns none.
pub open spec fn assigned_value(line: LineView) -> Seq<char> {
    match line {
        LineView::Assignment(statement) => statement.value,
        LineView::Opaque(_) => Seq::empty(),
    }
}

/// The value of `key`: the one that the last line for `key` assigns.
pub open spec fn lookup(doc: Seq<LineView>, key: Seq<char>) -> Option<Seq<char>> {
    match last_assignment(doc, key) {
        Some(at) => Some(assigned_value(doc[at])),
        None => None,
    }
}

/// `line` with another value and nothing else changed.
pub open spec fn with_value(line: LineView, value: Seq<char>) -> LineView {
    match line {
        LineView::Assignment(statement) => LineView::Assignment(
            StatementView {
                key: statement.key,
                value,
                leading: statement.leading,
                trailing: statement.trailing,
            },
        ),
        LineView::Opaque(text) => LineView::Opaque(text),
    }
}

/// A line that assigns `value` to `key`, with nothing before or behind.
pub open spec fn plain_assignment(key: Seq<char>, value: Seq<char>) -> LineView {
    LineView::Assignment(
        StatementView { key, value, leading: Seq::empty(), trailing: Seq::empty() },
    )
}

/// The document in which `key` has the value `value`: the last line for
/// `key` gets the value, or, where there is none, a line is added at the end.
pub open spec fn upsert(doc: Seq<LineView>, key: Seq<char>, value: Seq<char>) -> Seq<LineView> {
    match last_assignment(doc, key) {
        Some(at) => doc.update(at, with_value(doc[at], value)),
        None => doc.push(plain_assignment(key, value)),
    }
}

/// Whether `value` can be stored single-quoted on one line: it holds neither
/// a line feed nor a backslash.
pub open spec fn is_safe_value(value: Seq<char>) -> bool {
    !value.contains('\n') && !value.contains('\\')
}

/// Whether `dir` can be stored in `PATH`: it holds no quote, no backslash
/// and no line feed.
pub open spec fn is_safe_directory(dir: Seq<char>) -> bool {
    !dir.contains('"') && !dir.contains('\'') && !dir.contains('\\') && !dir.contains('\n')
}

/// The `PATH` value that has `dir` merged into `current`, or into the
/// default value where there is no current one.
pub open spec fn merged_path(current: Option<Seq<char>>, dir: Seq<char>) -> Seq<char> {
    let value = match current {
        Some(value) => value,
        None => DEFAULT_PATH@,
    };
    path_text(with_dir(parsed_path(value), dir))
}

/// The last assignment to a key is an assignment to it and no later line is.
pub proof fn lemma_last_assignment(doc: Seq<LineView>, key: Seq<char>)
    ensures
        match last_assignment(doc, key) {
            Some(at) => {
                &&& 0 <= at < doc.len()
                &&& assigns(doc[at], key)
                &&& forall|later: int| at < later < doc.len() ==> !assigns(#[trigger] doc[later], key)
            },
            None => forall|at: int| 0 <= at < doc.len() ==> !assigns(#[trigger] doc[at], key),
        },
    decreases doc.len(),
{
    if doc.len() > 0 && !assigns(doc.last(), key) {
        lemma_last_assignment(doc.drop_last(), key);
        let shorter = doc.drop_last();
        match last_assignment(shorter, key) {
            Some(at) => {
                assert forall|later: int| at < later < doc.len() implies !assigns(
                    #[trigger] doc[later],
                    key,
                ) by {
                    if later < shorter.len() {
                        assert(doc[later] == shorter[later]);
                    }
                }
            },
            None => {
                assert forall|at: int| 0 <= at < doc.len() implies !assigns(#[trigger] doc[at], key) by {
                    if at < shorter.len() {
                        assert(doc[at] == shorter[at]);
                    }
                }
            },
        }
    }
}

/// Two documents whose lines assign to the same keys have the same last
/// assignments.
pub proof fn lemma_last_assignment_same_keys(a: Seq<LineView>, b: Seq<LineView>, key: Seq<char>)
    requires
        a.len() == b.len(),
        forall|at: int| 0 <= at < a.len() ==> assigns(a[at], key) == assigns(b[at], key),
    ensures
        last_assignment(a, key) == last_assignment(b, key),
    decreases a.len(),
{
    if a.len() > 0 {
        assert(assigns(a[a.len() - 1], key) == assigns(b[a.len() - 1], key));
        if !assigns(a.last(), key) {
            let a1 = a.drop_last();
            let b1 = b.drop_last();
            assert forall|at: int| 0 <= at < a1.len() implies assigns(a1[at], key) == assigns(
                b1[at],
                key,
            ) by {
                assert(a1[at] == a[at]);
                assert(b1[at] == b[at]);
            }
            lemma_last_assignment_same_keys(a1, b1, key);
        }
    }
}

/// Last wins: where several lines assign to a key, the key has the value of
/// the last of them.
pub proof fn lemma_last_wins(doc: Seq<LineView>, key: Seq<char>, at: int)
    requires
        0 <= at < doc.len(),
        assigns(doc[at], key),
        forall|later: int| at < later < doc.len() ==> !assigns(doc[later], key),
    ensures
        last_assignment(doc, key) == Some(at),
        lookup(doc, key) == Some(assigned_value(doc[at])),
{
    lemma_last_assignment(doc, key);
}

/// A key that no line assigns has no value.
pub proof fn lemma_unassigned(doc: Seq<LineView>, key: Seq<char>)
    requires
        forall|at: int| 0 <= at < doc.len() ==> !assigns(doc[at], key),
    ensures
        lookup(doc, key) is None,
{
    lemma_last_assignment(doc, key);
}

/// Update in place: giving a value to a key that has one changes the value
/// on the last line for the key and nothing else, neither the number of
/// lines, nor any other line, nor what stands around the value.
pub proof fn lemma_upsert_in_place(doc: Seq<LineView>, key: Seq<char>, value: Seq<char>, at: int)
    requires
        0 <= at < doc.len(),
        assigns(doc[at], key),
        forall|later: int| at < later < doc.len() ==> !assigns(doc[later], key),
    ensures
        upsert(doc, key, value).len() == doc.len(),
        forall|other: int|
            0 <= other < doc.len() && other != at ==> upsert(doc, key, value)[other] == doc[other],
        upsert(doc, key, value)[at] matches LineView::Assignment(after) && doc[at]
            matches LineView::Assignment(before) && after.key == before.key && after.leading
            == before.leading && after.trailing == before.trailing && after.value == value,
{
    lemma_last_wins(doc, key, at);
}

/// Giving a value to a key that has none adds one line at the end, with
/// nothing before the name and nothing behind the value, and changes no
/// other line.
pub proof fn lemma_upsert_appends(doc: Seq<LineView>, key: Seq<char>, value: Seq<char>)
    requires
        forall|at: int| 0 <= at < doc.len() ==> !assigns(doc[at], key),
    ensures
        upsert(doc, key, value).len() == doc.len() + 1,
        forall|other: int| 0 <= other < doc.len() ==> upsert(doc, key, value)[other] == doc[other],
        upsert(doc, key, value).last() == plain_assignment(key, value),
{
    lemma_unassigned(doc, key);
}

/// After a key has been given a value it has that value, and every other
/// key has the value it had.
pub proof fn lemma_lookup_after_upsert(
    doc: Seq<LineView>,
    key: Seq<char>,
    value: Seq<char>,
    other: Seq<char>,
)
    ensures
        lookup(upsert(doc, key, value), key) == Some(value),
        other != key ==> lookup(upsert(doc, key, value), other) == lookup(doc, other),
{
    let after = upsert(doc, key, value);
    lemma_last_assignment(doc, key);
    lemma_last_assignment(doc, other);
    match last_assignment(doc, key) {
        Some(at) => {
            assert forall|k: Seq<char>, i: int| 0 <= i < doc.len() implies assigns(doc[i], k)
                == assigns(after[i], k) by {}
            lemma_last_assignment_same_keys(doc, after, key);
            lemma_last_assignment_same_keys(doc, after, other);
        },
        None => {
            assert(after.drop_last() == doc);
        },
    }
}

/// Tells whether `c` occurs in `text`.
fn contains_char(text: &str, c: char) -> (yes: bool)
    ensures
        yes == text@.contains(c),
{
    let mut yes = false;
    for x in it: text.chars()
        invariant
            it.seq() == text@,
            yes == text@.take(it.index() as int).contains(c),
    {
        proof {
            let seen = text@.take(it.index() as int);
            let next = text@.take(it.index() + 1);
            assert(next =~= seen.push(x));
            if seen.contains(c) {
                let k = choose|k: int| 0 <= k < seen.len() && seen[k] == c;
                assert(next[k] == c);
            }
            if x == c {
                assert(next[it.index() as int] == c);
            }
            if next.contains(c) {
                let k = choose|k: int| 0 <= k < next.len() && next[k] == c;
                if k < seen.len() {
                    assert(seen[k] == c);
                }
            }
        }
        if x == c {
            yes = true;
        }
    }
    assert(text@.take(text@.len() as int) == text@);
    yes
}

/// An environment file, at about the level at which `pam_env` reads one.
pub struct EnvFile {
    envs: StringHashMap<usize>,
    env_file_lines: EnvFileLines,
}

impl View for EnvFile {
    type V = Seq<LineView>;

    closed spec fn view(&self) -> Seq<LineView> {
        self.env_file_lines@
    }
}

/// Whether `index` knows, of every key, the last line that assigns it.
pub open spec fn indexes(index: Map<Seq<char>, usize>, doc: Seq<LineView>) -> bool {
    forall|key: Seq<char>|
        (#[trigger] index.contains_key(key) <==> last_assignment(doc, key) is Some) && (
        index.contains_key(key) ==> last_assignment(doc, key) == Some(index[key] as int))
}

impl EnvFile {
    /// The index and the lines agree on which line holds the value of each
    /// variable.
    pub closed spec fn well_formed(&self) -> bool {
        indexes(self.envs@, self.env_file_lines@)
    }

    /// A file without lines.
    pub fn new() -> (file: EnvFile)
        ensures
            file.well_formed(),
            file@ == Seq::<LineView>::empty(),
    {
        let file = EnvFile { envs: StringHashMap::new(), env_file_lines: EnvFileLines(Vec::new()) };
        assert(file@ =~= Seq::<LineView>::empty());
        file
    }

    /// The file that is made of `lines`.
    pub fn from_lines(lines: EnvFileLines) -> (file: EnvFile)
        ensures
            file.well_formed(),
            file@ == lines@,
    {
        let mut envs = StringHashMap::<usize>::new();
        let mut i: usize = 0;
        assert(lines@.take(0) =~= Seq::<LineView>::empty());
        while i < lines.0.len()
            invariant
                i <= lines.0.len(),
                indexes(envs@, lines@.take(i as int)),
            decreases lines.0.len() - i,
        {
            let ghost seen = lines@.take(i as int);
            let ghost old_index = envs@;
            proof {
                assert(lines@.take(i + 1).drop_last() == seen);
                assert(lines@.take(i + 1).last() == lines.0@[i as int]@);
            }
            match &lines.0[i] {
                EnvFileLine::Env(env) => {
                    envs.insert(env.key.clone(), i);
                    proof {
                        let next = lines@.take(i + 1);
                        assert forall|key: Seq<char>|
                            (#[trigger] envs@.contains_key(key) <==> last_assignment(next, key)
                                is Some) && (envs@.contains_key(key) ==> last_assignment(next, key)
                                == Some(envs@[key] as int)) by {
                            assert(old_index.contains_key(key) <==> last_assignment(seen, key)
                                is Some);
                        }
                    }
                },
                EnvFileLine::Other(_) => {
                    proof {
                        let next = lines@.take(i + 1);
                        assert forall|key: Seq<char>|
                            (#[trigger] envs@.contains_key(key) <==> last_assignment(next, key)
                                is Some) && (envs@.contains_key(key) ==> last_assignment(next, key)
                                == Some(envs@[key] as int)) by {
                            assert(old_index.contains_key(key) <==> last_assignment(seen, key)
                                is Some);
                        }
                    }
                },
            }
            i = i + 1;
        }
        assert(lines@.take(i as int) == lines@);
        EnvFile { envs, env_file_lines: lines }
    }

    /// Reads a file from its content.
    pub fn parse(content: &[u8]) -> (r: Result<EnvFile, ParseError>)
        ensures
            r matches Ok(file) && file.well_formed() && file@ == document(content@),
    {
        match EnvFileLines::parse(content) {
            Ok((_, lines)) => Ok(EnvFile::from_lines(lines)),
            Err(e) => Err(e),
        }
    }

    /// The value of `key`, as the file has it.
    pub fn get_env(&self, key: &str) -> (value: Option<&str>)
        requires
            self.well_formed(),
        ensures
            match value {
                Some(text) => lookup(self@, key@) == Some(text@),
                None => lookup(self@, key@) is None,
            },
    {
        proof {
            lemma_last_assignment(self@, key@);
            assert(self.envs@.contains_key(key@) <==> last_assignment(self@, key@) is Some);
        }
        let index = match self.envs.get(key) {
            Some(index) => *index,
            None => {
                return None;
            },
        };
        match &self.env_file_lines.0[index] {
            EnvFileLine::Env(env_statement) => Some(env_statement.value.as_str()),
            EnvFileLine::Other(_) => unreached(),
        }
    }

    /// Gives `key` the value `value`, written in single quotes. A value
    /// with a line feed or a backslash is refused, because it would not be
    /// read back as it was stored.
    pub fn put_env(&mut self, key: String, value: String) -> (r: Result<(), ArgumentError>)
        requires
            old(self).well_formed(),
        ensures
            final(self).well_formed(),
            match r {
                Ok(_) => is_safe_value(value@) && final(self)@ == upsert(
                    old(self)@,
                    key@,
                    single_quoted(value@),
                ),
                Err(e) => !is_safe_value(value@) && e == ArgumentError::UnsafeValue && final(self)@
                    == old(self)@,
            },
    {
        if contains_char(value.as_str(), '\n') || contains_char(value.as_str(), '\\') {
            return Err(ArgumentError::UnsafeValue);
        }
        let quoted = single_quote_str_for_shell(value.as_str());
        self.put_env_with_no_sanity_check(key, quoted);
        Ok(())
    }

    /// Puts `path_val` in front of the directories of `PATH`, unless `PATH`
    /// lists it already. A directory with a quote, a backslash or a line
    /// feed is refused.
    pub fn put_path(&mut self, path_val: String) -> (r: Result<(), ArgumentError>)
        requires
            old(self).well_formed(),
        ensures
            final(self).well_formed(),
            match r {
                Ok(_) => is_safe_directory(path_val@) && final(self)@ == upsert(
                    old(self)@,
                    "PATH"@,
                    merged_path(lookup(old(self)@, "PATH"@), path_val@),
                ),
                Err(e) => !is_safe_directory(path_val@) && e == ArgumentError::UnsafeDirectory
                    && final(self)@ == old(self)@,
            },
    {
        if contains_char(path_val.as_str(), '"') || contains_char(path_val.as_str(), '\'')
            || contains_char(path_val.as_str(), '\\') || contains_char(path_val.as_str(), '\n') {
            return Err(ArgumentError::UnsafeDirectory);
        }
        let pathenv_value = {
            let current = match self.get_env("PATH") {
                Some(value) => value,
                None => DEFAULT_PATH,
            };
            let mut path_variable = PathVariable::parse(current);
            path_variable.put_path(path_val.as_str());
            path_variable.serialize()
        };
        self.put_env_with_no_sanity_check("PATH".to_owned(), pathenv_value);
        Ok(())
    }

    /// Gives `key` the value `value`, stored exactly as it is given.
    pub fn put_env_with_no_sanity_check(&mut self, key: String, value: String)
        requires
            old(self).well_formed(),
        ensures
            final(self).well_formed(),
            final(self)@ == upsert(old(self)@, key@, value@),
    {
        let ghost doc = self@;
        let ghost index = self.envs@;
        proof {
            lemma_last_assignment(doc, key@);
            assert(index.contains_key(key@) <==> last_assignment(doc, key@) is Some);
        }
        let found = match self.envs.get(key.as_str()) {
            Some(index) => Some(*index),
            None => None,
        };
        match found {
            Some(at) => {
                match &mut self.env_file_lines.0[at] {
                    EnvFileLine::Env(env_statement) => {
                        env_statement.value = value;
                    },
                    EnvFileLine::Other(_) => {},
                }
                proof {
                    let after = self@;
                    assert(after =~= doc.update(at as int, with_value(doc[at as int], value@)));
                    assert forall|k: Seq<char>|
                        (#[trigger] index.contains_key(k) <==> last_assignment(after, k) is Some)
                            && (index.contains_key(k) ==> last_assignment(after, k) == Some(
                            index[k] as int,
                        )) by {
                        assert(index.contains_key(k) <==> last_assignment(doc, k) is Some);
                        lemma_last_assignment_same_keys(doc, after, k);
                    }
                }
            },
            None => {
                let ghost name = key@;
                let line = EnvFileLine::Env(
                    EnvStatement {
                        key: key.clone(),
                        value,
                        leading_characters: String::new(),
                        following_characters: String::new(),
                    },
                );
                self.env_file_lines.0.push(line);
                self.envs.insert(key, self.env_file_lines.0.len() - 1);
                proof {
                    let after = self@;
                    assert(after =~= doc.push(plain_assignment(name, value@)));
                    assert(after.drop_last() == doc);
                    assert forall|k: Seq<char>|
                        (#[trigger] self.envs@.contains_key(k) <==> last_assignment(after, k)
                            is Some) && (self.envs@.contains_key(k) ==> last_assignment(after, k)
                            == Some(self.envs@[k] as int)) by {
                        assert(index.contains_key(k) <==> last_assignment(doc, k) is Some);
                    }
                }
            },
        }
    }

    /// The file as it is written back.
    pub fn serialize(&self) -> (text: String)
        ensures
            text@ == document_text(self@),
    {
        self.env_file_lines.serialize()
    }
}

} // verus!
