//! Merging directories into the value of `PATH` without disturbing what is
//! there: a new directory goes in front, an old one is left where it is, and
//! a value that is quoted as a whole stays quoted as a whole.

use vstd::prelude::*;
use vstd::std_specs::iter::IteratorSpec;
use vstd::hash_set::StringHashSet;
use vstd::string::{StrSliceExecFns, StringExecFns};
use crate::quoting::{single_quote_str_for_shell, single_quoted};
use crate::text::push_char;

verus! {

broadcast use vstd::string::group_string_axioms;

/// The pieces of `s` between the occurrences of `sep`: one more than there
/// are occurrences.
pub open spec fn split_on(s: Seq<char>, sep: char) -> Seq<Seq<char>>
    decreases s.len(),
{
    if s.len() == 0 {
        seq![Seq::empty()]
    } else {
        let before = split_on(s.drop_last(), sep);
        if s.last() == sep {
            before.push(Seq::empty())
        } else {
            before.update(before.len() - 1, before.last().push(s.last()))
        }
    }
}

/// The pieces with `sep` between each two of them.
pub open spec fn joined(parts: Seq<Seq<char>>, sep: char) -> Seq<char>
    decreases parts.len(),
{
    if parts.len() == 0 {
        Seq::empty()
    } else if parts.len() == 1 {
        parts[0]
    } else {
        joined(parts.drop_last(), sep).push(sep) + parts.last()
    }
}

/// Whether `piece` starts with `c`.
pub open spec fn starts_with(piece: Seq<char>, c: char) -> bool {
    piece.len() > 0 && piece.first() == c
}

/// Whether `piece` ends with `c`.
pub open spec fn ends_with(piece: Seq<char>, c: char) -> bool {
    piece.len() > 0 && piece.last() == c
}

/// Whether `quote` is taken to surround the whole value: the first piece
/// opens with it and does not close it, the last piece closes it and did
/// not open it.
pub open spec fn wraps(parts: Seq<Seq<char>>, quote: char) -> bool {
    &&& parts.len() > 0
    &&& starts_with(parts.first(), quote) && !ends_with(parts.first(), quote)
    &&& !starts_with(parts.last(), quote) && ends_with(parts.last(), quote)
}

/// The quote that is taken to surround the whole value, if any.
pub open spec fn surrounding_quote(parts: Seq<Seq<char>>) -> Option<char> {
    if wraps(parts, '"') {
        Some('"')
    } else if wraps(parts, '\'') {
        Some('\'')
    } else {
        None
    }
}

/// The pieces without the quote that opens the first and closes the last.
pub open spec fn unwrapped(parts: Seq<Seq<char>>) -> Seq<Seq<char>> {
    let opened = parts.update(0, parts.first().drop_first());
    opened.update(opened.len() - 1, opened.last().drop_last())
}

/// What a `PATH` value is read as, and what has been added to it.
pub struct PathView {
    /// The directories of the value that was read, in their order.
    pub parsed: Seq<Seq<char>>,
    /// The directories added since, the latest last.
    pub added: Seq<Seq<char>>,
    /// The quote that surrounds the whole value, if one does.
    pub quote: Option<char>,
}

/// What `value` is read as.
pub open spec fn parsed_path(value: Seq<char>) -> PathView {
    let parts = split_on(value, ':');
    let quote = surrounding_quote(parts);
    PathView {
        parsed: if quote is Some {
            unwrapped(parts)
        } else {
            parts
        },
        added: Seq::empty(),
        quote,
    }
}

/// Whether `dir` is among the directories, old or new.
pub open spec fn lists(path: PathView, dir: Seq<char>) -> bool {
    path.parsed.contains(dir) || path.added.contains(dir)
}

/// `path` after `dir` has been put into it: unchanged where `dir` is listed
/// already.
pub open spec fn with_dir(path: PathView, dir: Seq<char>) -> PathView {
    if lists(path, dir) {
        path
    } else {
        PathView { parsed: path.parsed, added: path.added.push(dir), quote: path.quote }
    }
}

/// The order in which the directories are searched: what was added last
/// comes first, what was read comes last.
pub open spec fn search_order(path: PathView) -> Seq<Seq<char>> {
    path.added.reverse() + path.parsed
}

/// How an added directory is written: as it is inside a quote that
/// surrounds the whole value, and single-quoted otherwise.
pub open spec fn written_dir(quote: Option<char>, dir: Seq<char>) -> Seq<char> {
    if quote is None {
        single_quoted(dir)
    } else {
        dir
    }
}

/// The pieces of the value that is written: the added directories, latest
/// first, then the directories that were read, as they were read.
pub open spec fn written_parts(path: PathView) -> Seq<Seq<char>> {
    path.added.reverse().map_values(|dir: Seq<char>| written_dir(path.quote, dir)) + path.parsed
}

/// The value that is written, without the quote that surrounds it.
pub open spec fn path_body(path: PathView) -> Seq<char> {
    joined(written_parts(path), ':')
}

/// The value that is written.
pub open spec fn path_text(path: PathView) -> Seq<char> {
    let body = path_body(path);
    match path.quote {
        Some(quote) => seq![quote] + body.push(quote),
        None => body,
    }
}

/// Pieces that are joined behind a first piece follow it and a separator.
pub proof fn lemma_joined_first(first: Seq<char>, rest: Seq<Seq<char>>, sep: char)
    ensures
        joined(seq![first] + rest, sep) == if rest.len() == 0 {
            first
        } else {
            first.push(sep) + joined(rest, sep)
        },
    decreases rest.len(),
{
    let all = seq![first] + rest;
    if rest.len() == 0 {
        assert(all[0] == first);
    } else {
        lemma_joined_first(first, rest.drop_last(), sep);
        assert(all.drop_last() =~= seq![first] + rest.drop_last());
        assert(all.last() == rest.last());
        if rest.len() == 1 {
            assert(rest.drop_last().len() == 0);
            assert(joined(all, sep) =~= first.push(sep) + joined(rest, sep));
        } else {
            assert(joined(all, sep) =~= first.push(sep) + joined(rest, sep));
        }
    }
}

/// A text always splits into at least one piece.
pub proof fn lemma_split_len(s: Seq<char>, sep: char)
    ensures
        split_on(s, sep).len() >= 1,
    decreases s.len(),
{
    if s.len() > 0 {
        lemma_split_len(s.drop_last(), sep);
    }
}

/// Joining the pieces that a text splits into gives the text back.
pub proof fn lemma_join_split(s: Seq<char>, sep: char)
    ensures
        joined(split_on(s, sep), sep) == s,
    decreases s.len(),
{
    if s.len() == 0 {
        assert(s =~= Seq::<char>::empty());
    } else {
        let shorter = s.drop_last();
        let before = split_on(shorter, sep);
        lemma_split_len(shorter, sep);
        lemma_join_split(shorter, sep);
        assert(s =~= shorter.push(s.last()));
        if s.last() == sep {
            let parts = before.push(Seq::empty());
            assert(parts.drop_last() =~= before);
            assert(joined(parts, sep) =~= joined(before, sep).push(sep));
        } else {
            let grown = before.last().push(s.last());
            let parts = before.update(before.len() - 1, grown);
            if before.len() == 1 {
                assert(joined(parts, sep) =~= joined(before, sep).push(s.last()));
            } else {
                assert(parts.drop_last() =~= before.drop_last());
                assert(joined(parts, sep) =~= joined(before, sep).push(s.last()));
            }
        }
    }
}

/// Taking the first character off the first piece takes it off the joined
/// text.
pub proof fn lemma_joined_without_first_char(parts: Seq<Seq<char>>, sep: char)
    requires
        parts.len() >= 1,
        parts.first().len() > 0,
    ensures
        joined(parts, sep) == seq![parts.first().first()] + joined(
            parts.update(0, parts.first().drop_first()),
            sep,
        ),
    decreases parts.len(),
{
    let opened = parts.update(0, parts.first().drop_first());
    if parts.len() == 1 {
        assert(parts[0] =~= seq![parts[0][0]] + parts[0].drop_first());
    } else {
        lemma_joined_without_first_char(parts.drop_last(), sep);
        assert(opened.drop_last() =~= parts.drop_last().update(0, parts.first().drop_first()));
        assert(opened.last() == parts.last());
        assert(joined(parts, sep) =~= seq![parts.first().first()] + joined(opened, sep));
    }
}

/// Taking the last character off the last piece takes it off the joined
/// text.
pub proof fn lemma_joined_without_last_char(parts: Seq<Seq<char>>, sep: char)
    requires
        parts.len() >= 1,
        parts.last().len() > 0,
    ensures
        joined(parts, sep) == joined(
            parts.update(parts.len() - 1, parts.last().drop_last()),
            sep,
        ).push(parts.last().last()),
{
    let closed = parts.update(parts.len() - 1, parts.last().drop_last());
    assert(parts.last() =~= parts.last().drop_last().push(parts.last().last()));
    if parts.len() > 1 {
        assert(closed.drop_last() =~= parts.drop_last());
        assert(joined(parts, sep) =~= joined(closed, sep).push(parts.last().last()));
    }
}

/// A value that is read and written with nothing put into it is written
/// as it was read.
pub proof fn lemma_read_write(value: Seq<char>)
    ensures
        path_text(parsed_path(value)) == value,
        search_order(parsed_path(value)) == parsed_path(value).parsed,
{
    let parts = split_on(value, ':');
    let path = parsed_path(value);
    lemma_split_len(value, ':');
    lemma_join_split(value, ':');
    assert(path.added.reverse() =~= Seq::<Seq<char>>::empty());
    assert(written_parts(path) =~= path.parsed);
    assert(search_order(path) =~= path.parsed);
    match path.quote {
        Some(quote) => {
            assert(wraps(parts, quote));
            assert(parts.len() >= 2);
            let opened = parts.update(0, parts.first().drop_first());
            lemma_joined_without_first_char(parts, ':');
            assert(opened.last() == parts.last());
            lemma_joined_without_last_char(opened, ':');
            assert(value =~= seq![quote] + joined(unwrapped(parts), ':').push(quote));
        },
        None => {},
    }
}

/// No duplicates: putting a directory that is listed already changes
/// neither the value that is written nor the order of the search.
pub proof fn lemma_put_listed(path: PathView, dir: Seq<char>)
    requires
        lists(path, dir),
    ensures
        with_dir(path, dir) == path,
        path_text(with_dir(path, dir)) == path_text(path),
        search_order(with_dir(path, dir)) == search_order(path),
{
}

/// Putting a directory twice is putting it once.
pub proof fn lemma_put_twice(path: PathView, dir: Seq<char>)
    ensures
        with_dir(with_dir(path, dir), dir) == with_dir(path, dir),
{
    if !lists(path, dir) {
        let once = with_dir(path, dir);
        assert(once.added[path.added.len() as int] == dir);
    }
}

/// Order: of two new directories the one put later comes first, the one
/// put earlier second, and behind them everything that was listed before,
/// in the order it was in.
pub proof fn lemma_put_order(path: PathView, a: Seq<char>, b: Seq<char>)
    requires
        !lists(path, a),
        !lists(path, b),
        a != b,
    ensures
        search_order(with_dir(with_dir(path, a), b)) == seq![b, a] + search_order(path),
        written_parts(with_dir(with_dir(path, a), b)) == seq![
            written_dir(path.quote, b),
            written_dir(path.quote, a),
        ] + written_parts(path),
        written_parts(path).len() > 0 ==> path_body(with_dir(with_dir(path, a), b)) == written_dir(
            path.quote,
            b,
        ).push(':') + (written_dir(path.quote, a).push(':') + path_body(path)),
{
    let first = with_dir(path, a);
    assert(!lists(first, b)) by {
        if first.added.contains(b) {
            let k = choose|k: int| 0 <= k < first.added.len() && first.added[k] == b;
            if k < path.added.len() {
                assert(path.added[k] == b);
            }
        }
    }
    let second = with_dir(first, b);
    assert(second.added =~= path.added.push(a).push(b));
    assert(second.added.reverse() =~= seq![b, a] + path.added.reverse());
    assert(search_order(second) =~= seq![b, a] + search_order(path));
    let wb = written_dir(path.quote, b);
    let wa = written_dir(path.quote, a);
    assert(written_parts(second) =~= seq![wb, wa] + written_parts(path));
    assert(seq![wb, wa] + written_parts(path) =~= seq![wb] + (seq![wa] + written_parts(path)));
    lemma_joined_first(wb, seq![wa] + written_parts(path), ':');
    lemma_joined_first(wa, written_parts(path), ':');
}

/// The texts of string slices.
pub open spec fn texts(items: Seq<&str>) -> Seq<Seq<char>> {
    Seq::new(items.len(), |i: int| items[i]@)
}

/// Tells whether `piece` starts with `c`.
fn starts_with_char(piece: &str, c: char) -> (yes: bool)
    ensures
        yes == starts_with(piece@, c),
{
    piece.unicode_len() > 0 && piece.get_char(0) == c
}

/// Tells whether `piece` ends with `c`.
fn ends_with_char(piece: &str, c: char) -> (yes: bool)
    ensures
        yes == ends_with(piece@, c),
{
    let len = piece.unicode_len();
    len > 0 && piece.get_char(len - 1) == c
}

/// Tells whether `quote` is taken to surround the whole value.
fn is_wrapped_in(paths: &Vec<&str>, quote: char) -> (yes: bool)
    ensures
        yes == wraps(texts(paths@), quote),
{
    if paths.len() == 0 {
        return false;
    }
    let first = paths[0];
    let last = paths[paths.len() - 1];
    starts_with_char(first, quote) && !ends_with_char(first, quote) && !starts_with_char(
        last,
        quote,
    ) && ends_with_char(last, quote)
}

/// A `PATH` value taken apart, to which directories can be added.
pub struct PathVariable<'a> {
    parsed_paths: Vec<&'a str>,
    added_paths: Vec<&'a str>,
    path_set: StringHashSet,
    surrounding_quote: Option<char>,
}

impl<'a> View for PathVariable<'a> {
    type V = PathView;

    closed spec fn view(&self) -> PathView {
        PathView {
            parsed: texts(self.parsed_paths@),
            added: texts(self.added_paths@),
            quote: self.surrounding_quote,
        }
    }
}

impl<'a> PathVariable<'a> {
    /// The set of directories holds exactly the directories that are listed.
    pub closed spec fn well_formed(&self) -> bool {
        forall|dir: Seq<char>| self.path_set@.contains(dir) <==> lists(self@, dir)
    }

    /// Takes a `PATH` value apart at its colons.
    pub fn parse(val: &'a str) -> (path: Self)
        ensures
            path.well_formed(),
            path@ == parsed_path(val@),
    {
        let len = val.unicode_len();
        let mut paths: Vec<&'a str> = Vec::new();
        let mut start: usize = 0;
        let mut at: usize = 0;
        proof {
            assert(val@.take(0) =~= Seq::<char>::empty());
            assert(val@.subrange(0, 0) =~= Seq::<char>::empty());
            assert(texts(paths@).push(Seq::<char>::empty()) =~= seq![Seq::<char>::empty()]);
        }
        for c in it: val.chars()
            invariant
                it.seq() == val@,
                at == it.index(),
                start <= at <= len,
                len == val@.len(),
                split_on(val@.take(at as int), ':') == texts(paths@).push(
                    val@.subrange(start as int, at as int),
                ),
        {
            proof {
                let seen = val@.take(at as int);
                let next = val@.take(at + 1);
                assert(next.drop_last() == seen);
                assert(next.last() == c);
                let open = val@.subrange(start as int, at as int);
                if c == ':' {
                    assert(val@.subrange(at + 1, at + 1) =~= Seq::<char>::empty());
                } else {
                    assert(open.push(c) =~= val@.subrange(start as int, at + 1));
                    assert(texts(paths@).push(open).update(texts(paths@).len() as int, open.push(c))
                        =~= texts(paths@).push(open.push(c)));
                }
            }
            if c == ':' {
                let ghost before = texts(paths@);
                paths.push(val.substring_char(start, at));
                assert(texts(paths@) =~= before.push(val@.subrange(start as int, at as int)));
                start = at + 1;
            }
            at = at + 1;
        }
        let ghost before = texts(paths@);
        paths.push(val.substring_char(start, at));
        proof {
            assert(val@.take(at as int) == val@);
            assert(texts(paths@) =~= before.push(val@.subrange(start as int, at as int)));
        }
        let ghost parts = texts(paths@);

        // A quote is taken to surround the whole value by a simple rule, which
        // does not look inside the pieces.
        let surrounding_quote = if is_wrapped_in(&paths, '"') {
            Some('"')
        } else if is_wrapped_in(&paths, '\'') {
            Some('\'')
        } else {
            None
        };
        if surrounding_quote.is_some() {
            let first = paths[0];
            paths[0] = first.substring_char(1, first.unicode_len());
            let last_at = paths.len() - 1;
            let last = paths[last_at];
            paths[last_at] = last.substring_char(0, last.unicode_len() - 1);
            assert(texts(paths@) =~= unwrapped(parts));
        }
        let mut path_set = StringHashSet::new();
        let mut i: usize = 0;
        while i < paths.len()
            invariant
                i <= paths.len(),
                forall|dir: Seq<char>|
                    path_set@.contains(dir) <==> texts(paths@).take(i as int).contains(dir),
            decreases paths.len() - i,
        {
            let ghost seen = texts(paths@).take(i as int);
            path_set.insert(paths[i].to_owned());
            proof {
                let next = texts(paths@).take(i + 1);
                assert(next =~= seen.push(paths@[i as int]@));
                assert forall|dir: Seq<char>| path_set@.contains(dir) <==> next.contains(dir) by {
                    if seen.contains(dir) {
                        let k = choose|k: int| 0 <= k < seen.len() && seen[k] == dir;
                        assert(next[k] == dir);
                    }
                    if dir == paths@[i as int]@ {
                        assert(next[i as int] == dir);
                    }
                    if next.contains(dir) {
                        let k = choose|k: int| 0 <= k < next.len() && next[k] == dir;
                        if k < i {
                            assert(seen[k] == dir);
                        }
                    }
                }
            }
            i = i + 1;
        }
        let path = PathVariable {
            parsed_paths: paths,
            added_paths: Vec::new(),
            path_set,
            surrounding_quote,
        };
        proof {
            assert(texts(path.parsed_paths@).take(i as int) == texts(path.parsed_paths@));
            assert(path@.added =~= Seq::<Seq<char>>::empty());
            assert forall|dir: Seq<char>| !path@.added.contains(dir) by {}
        }
        path
    }

    /// The value with what has been added to it.
    pub fn serialize(&self) -> (text: String)
        ensures
            text@ == path_text(self@),
    {
        let mut path_var = String::new();
        if let Some(quote) = self.surrounding_quote {
            push_char(&mut path_var, quote);
        }
        let ghost head = path_var@;
        let ghost parts = written_parts(self@);
        let ghost new_parts = self@.added.reverse().map_values(
            |dir: Seq<char>| written_dir(self@.quote, dir),
        );
        let added = self.added_paths.len();
        let mut i: usize = 0;
        while i < added
            invariant
                i <= added,
                added == self.added_paths.len(),
                parts == written_parts(self@),
                new_parts == self@.added.reverse().map_values(
                    |dir: Seq<char>| written_dir(self@.quote, dir),
                ),
                path_var@ == head + joined(parts.take(i as int), ':'),
            decreases added - i,
        {
            let path = self.added_paths[added - 1 - i];
            let written = self.quote_path_if_necessary(path);
            proof {
                assert(parts[i as int] == new_parts[i as int]);
                assert(self@.added.reverse()[i as int] == path@);
                assert(parts.take(i + 1).drop_last() == parts.take(i as int));
                assert(parts.take(i + 1).last() == written@);
            }
            if i > 0 {
                push_char(&mut path_var, ':');
            }
            path_var.append(written.as_str());
            i = i + 1;
        }
        let mut n: usize = 0;
        while n < self.parsed_paths.len()
            invariant
                i == added,
                n <= self.parsed_paths.len(),
                added == self.added_paths.len(),
                parts == written_parts(self@),
                new_parts == self@.added.reverse().map_values(
                    |dir: Seq<char>| written_dir(self@.quote, dir),
                ),
                path_var@ == head + joined(parts.take(added + n), ':'),
            decreases self.parsed_paths.len() - n,
        {
            let path = self.parsed_paths[n];
            proof {
                assert(new_parts.len() == added);
                assert(parts[added + n] == path@);
                assert(parts.take(added + n + 1).drop_last() == parts.take(added + n));
                assert(parts.take(added + n + 1).last() == path@);
            }
            if i > 0 || n > 0 {
                push_char(&mut path_var, ':');
            }
            path_var.append(path);
            n = n + 1;
        }
        assert(parts.take(added + n) == parts);
        if let Some(quote) = self.surrounding_quote {
            push_char(&mut path_var, quote);
        }
        path_var
    }

    /// Writes a directory that is added to the value.
    fn quote_path_if_necessary(&self, path: &str) -> (written: String)
        ensures
            written@ == written_dir(self@.quote, path@),
    {
        if self.surrounding_quote.is_none() {
            return single_quote_str_for_shell(path);
        }
        path.to_owned()
    }

    /// Puts a directory in front of all others, unless it is listed already.
    pub fn put_path(&mut self, path_val: &'a str)
        requires
            old(self).well_formed(),
        ensures
            final(self).well_formed(),
            final(self)@ == with_dir(old(self)@, path_val@),
    {
        if self.path_set.contains(path_val) {
            return ;
        }
        let ghost before = texts(self.added_paths@);
        self.added_paths.push(path_val);
        self.path_set.insert(path_val.to_owned());
        proof {
            let after = texts(self.added_paths@);
            assert(after =~= before.push(path_val@));
            assert(self@.parsed == old(self)@.parsed);
            assert forall|dir: Seq<char>| self.path_set@.contains(dir) <==> lists(self@, dir) by {
                assert(old(self).path_set@.contains(dir) <==> lists(old(self)@, dir));
                if before.contains(dir) {
                    let k = choose|k: int| 0 <= k < before.len() && before[k] == dir;
                    assert(after[k] == dir);
                }
                if dir == path_val@ {
                    assert(after[before.len() as int] == dir);
                }
                if after.contains(dir) {
                    let k = choose|k: int| 0 <= k < after.len() && after[k] == dir;
                    if k < before.len() {
                        assert(before[k] == dir);
                    }
                }
            }
        }
    }

    /// The directories in the order in which they are searched.
    pub fn iter(&self) -> (dirs: std::vec::IntoIter<&'a str>)
        ensures
            texts(dirs.remaining()) == search_order(self@),
    {
        let listed = self.search_order();
        listed.into_iter()
    }

    /// The directories in the order in which they are searched, as a list.
    pub fn search_order(&self) -> (dirs: Vec<&'a str>)
        ensures
            texts(dirs@) == search_order(self@),
    {
        let mut dirs: Vec<&'a str> = Vec::new();
        let added = self.added_paths.len();
        let mut i: usize = 0;
        while i < added
            invariant
                i <= added,
                added == self.added_paths.len(),
                texts(dirs@) == self@.added.reverse().take(i as int),
            decreases added - i,
        {
            let ghost before = texts(dirs@);
            dirs.push(self.added_paths[added - 1 - i]);
            assert(texts(dirs@) =~= before.push(self.added_paths@[added - 1 - i]@));
            assert(texts(dirs@) =~= self@.added.reverse().take(i + 1));
            i = i + 1;
        }
        let mut n: usize = 0;
        while n < self.parsed_paths.len()
            invariant
                n <= self.parsed_paths.len(),
                texts(dirs@) == self@.added.reverse() + self@.parsed.take(n as int),
            decreases self.parsed_paths.len() - n,
        {
            let ghost before = texts(dirs@);
            dirs.push(self.parsed_paths[n]);
            assert(texts(dirs@) =~= before.push(self.parsed_paths@[n as int]@));
            assert(texts(dirs@) =~= self@.added.reverse() + self@.parsed.take(n + 1));
            n = n + 1;
        }
        assert(self@.parsed.take(n as int) == self@.parsed);
        dirs
    }
}

} // verus!
