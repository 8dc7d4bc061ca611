//! Generation of a POSIX shell snippet that exports variables unless they are
//! already set and extends `PATH` without duplicating an entry.

use vstd::prelude::*;
use vstd::string::StringExecFns;
use crate::order::{
    ascending, is_ascending_listing, lemma_lex_irreflexive, lemma_lex_total, lemma_lex_transitive,
    lemma_listing_is_ascending,
};
use crate::quoting::{single_quote_str_for_shell, single_quoted};
use crate::text::{lex_less, str_less};

verus! {

/// The guarded export of one variable: nothing happens when the variable
/// already has a non-empty value.
pub open spec fn export_line(name: Seq<char>, value: Seq<char>) -> Seq<char> {
    "if [ -z \"${"@ + name + ":-}\" ]; then export "@ + name + "="@ + single_quoted(value)
        + "; fi\n"@
}

/// The block that adds one directory to `PATH` unless `PATH` already lists it.
pub open spec fn path_block(dir: Seq<char>, prepends: bool) -> Seq<char> {
    "__CANDIDATE_PATH="@ + single_quoted(dir) + "\n__COLON_PATH=\":${PATH}:\"\n"@ + (if prepends {
        "if [ \"${__COLON_PATH#*:${__CANDIDATE_PATH}:}\" = \"${__COLON_PATH}\" ]; then export PATH=\"${__CANDIDATE_PATH}:${PATH}\"; fi\n"@
    } else {
        "if [ \"${__COLON_PATH#*:${__CANDIDATE_PATH}:}\" = \"${__COLON_PATH}\" ]; then export PATH=\"${PATH}:${__CANDIDATE_PATH}\"; fi\n"@
    }) + "unset __CANDIDATE_PATH\nunset __COLON_PATH\n"@
}

/// The export lines of `names`, in the order given.
pub open spec fn export_lines(names: Seq<Seq<char>>, envs: Map<Seq<char>, Seq<char>>) -> Seq<char>
    decreases names.len(),
{
    if names.len() == 0 {
        Seq::empty()
    } else {
        export_lines(names.drop_last(), envs) + export_line(names.last(), envs[names.last()])
    }
}

/// The path blocks of `dirs`, in the order given.
pub open spec fn path_blocks(dirs: Seq<Seq<char>>, paths: Map<Seq<char>, bool>) -> Seq<char>
    decreases dirs.len(),
{
    if dirs.len() == 0 {
        Seq::empty()
    } else {
        path_blocks(dirs.drop_last(), paths) + path_block(dirs.last(), paths[dirs.last()])
    }
}

/// The whole script: every variable in ascending order of its name, then
/// every directory in ascending order.
pub open spec fn shell_script(envs: Map<Seq<char>, Seq<char>>, paths: Map<Seq<char>, bool>) -> Seq<
    char,
> {
    export_lines(ascending(envs.dom()), envs) + path_blocks(ascending(paths.dom()), paths)
}

/// The names of a list of entries.
spec fn names_of<V>(entries: Seq<(String, V)>) -> Seq<Seq<char>> {
    Seq::new(entries.len(), |i: int| entries[i].0@)
}

/// No name occurs twice, and the names ascend.
spec fn names_ascend<V>(entries: Seq<(String, V)>) -> bool {
    forall|i: int, j: int|
        0 <= i < j < entries.len() ==> lex_less(#[trigger] entries[i].0@, #[trigger] entries[j].0@)
}

/// Where `name` stands in `entries`, if it does.
spec fn position_of<V>(entries: Seq<(String, V)>, name: Seq<char>) -> int {
    choose|i: int| 0 <= i < entries.len() && entries[i].0@ == name
}

/// The entries as a map from name to what is stored under it.
spec fn entries_map<V>(entries: Seq<(String, V)>) -> Map<Seq<char>, V> {
    Map::new(
        |name: Seq<char>| exists|i: int| 0 <= i < entries.len() && #[trigger] entries[i].0@ == name,
        |name: Seq<char>| entries[position_of(entries, name)].1,
    )
}

proof fn lemma_entry_lookup<V>(entries: Seq<(String, V)>, i: int)
    requires
        names_ascend(entries),
        0 <= i < entries.len(),
    ensures
        entries_map(entries).contains_key(entries[i].0@),
        entries_map(entries)[entries[i].0@] == entries[i].1,
{
    let name = entries[i].0@;
    let p = position_of(entries, name);
    if p < i {
        assert(lex_less(entries[p].0@, entries[i].0@));
        lemma_lex_irreflexive(name);
    } else if i < p {
        assert(lex_less(entries[i].0@, entries[p].0@));
        lemma_lex_irreflexive(name);
    }
}

proof fn lemma_names_list_map<V>(entries: Seq<(String, V)>)
    requires
        names_ascend(entries),
    ensures
        is_ascending_listing(names_of(entries), entries_map(entries).dom()),
        ascending(entries_map(entries).dom()) == names_of(entries),
{
    let names = names_of(entries);
    let dom = entries_map(entries).dom();
    assert forall|k: Seq<char>| names.contains(k) <==> dom.contains(k) by {
        if names.contains(k) {
            let i = choose|i: int| 0 <= i < names.len() && names[i] == k;
            assert(entries[i].0@ == k);
        }
        if dom.contains(k) {
            let i = choose|i: int| 0 <= i < entries.len() && #[trigger] entries[i].0@ == k;
            assert(names[i] == k);
        }
    }
    assert forall|i: int, j: int| 0 <= i < j < names.len() implies lex_less(
        #[trigger] names[i],
        #[trigger] names[j],
    ) by {
        assert(lex_less(entries[i].0@, entries[j].0@));
    }
    lemma_listing_is_ascending(names, dom);
}

/// Stores `value` under `name`, replacing what was stored there, and keeps
/// the names ascending.
fn put_sorted<V>(entries: &mut Vec<(String, V)>, name: String, value: V)
    requires
        names_ascend(old(entries)@),
    ensures
        names_ascend(final(entries)@),
        entries_map(final(entries)@) == entries_map(old(entries)@).insert(name@, value),
{
    let mut at: usize = 0;
    while at < entries.len() && str_less(entries[at].0.as_str(), name.as_str())
        invariant
            at <= entries.len(),
            *entries == *old(entries),
            forall|j: int| 0 <= j < at ==> lex_less(#[trigger] entries@[j].0@, name@),
        decreases entries.len() - at,
    {
        at = at + 1;
    }
    let ghost before = entries@;
    let ghost key = name@;
    if at < entries.len() && entries[at].0 == name {
        entries[at] = (name, value);
        proof {
            let after = entries@;
            assert forall|i: int, j: int| 0 <= i < j < after.len() implies lex_less(
                #[trigger] after[i].0@,
                #[trigger] after[j].0@,
            ) by {
                assert(lex_less(before[i].0@, before[j].0@));
            }
            assert forall|k: Seq<char>|
                entries_map(after).contains_key(k) <==> entries_map(before).insert(
                    key,
                    value,
                ).contains_key(k) by {
                if entries_map(after).contains_key(k) {
                    let i = choose|i: int| 0 <= i < after.len() && #[trigger] after[i].0@ == k;
                    assert(before[i].0@ == k);
                }
                if entries_map(before).contains_key(k) {
                    let i = choose|i: int| 0 <= i < before.len() && #[trigger] before[i].0@ == k;
                    assert(after[i].0@ == k);
                }
                if k == key {
                    assert(after[at as int].0@ == k);
                }
            }
            assert forall|k: Seq<char>| entries_map(after).contains_key(k) implies entries_map(
                after,
            )[k] == entries_map(before).insert(key, value)[k] by {
                let i = choose|i: int| 0 <= i < after.len() && #[trigger] after[i].0@ == k;
                lemma_entry_lookup(after, i);
                if i != at {
                    lemma_entry_lookup(before, i);
                    if k == key {
                        lemma_entry_lookup(after, at as int);
                    }
                }
            }
            assert(entries_map(after) =~= entries_map(before).insert(key, value));
        }
    } else {
        entries.insert(at, (name, value));
        proof {
            let after = entries@;
            if at < before.len() {
                lemma_lex_total(before[at as int].0@, key);
            }
            assert forall|i: int, j: int| 0 <= i < j < after.len() implies lex_less(
                #[trigger] after[i].0@,
                #[trigger] after[j].0@,
            ) by {
                if j < at {
                    assert(lex_less(before[i].0@, before[j].0@));
                } else if j == at {
                } else if i < at {
                    assert(lex_less(before[i].0@, before[j - 1].0@));
                } else if i == at {
                    if j - 1 > at {
                        assert(lex_less(before[at as int].0@, before[j - 1].0@));
                        lemma_lex_transitive(key, before[at as int].0@, before[j - 1].0@);
                    }
                } else {
                    assert(lex_less(before[i - 1].0@, before[j - 1].0@));
                }
            }
            assert forall|k: Seq<char>|
                entries_map(after).contains_key(k) <==> entries_map(before).insert(
                    key,
                    value,
                ).contains_key(k) by {
                if entries_map(after).contains_key(k) {
                    let i = choose|i: int| 0 <= i < after.len() && #[trigger] after[i].0@ == k;
                    if i < at {
                        assert(before[i].0@ == k);
                    } else if i > at {
                        assert(before[i - 1].0@ == k);
                    }
                }
                if entries_map(before).contains_key(k) {
                    let i = choose|i: int| 0 <= i < before.len() && #[trigger] before[i].0@ == k;
                    if i < at {
                        assert(after[i].0@ == k);
                    } else {
                        assert(after[i + 1].0@ == k);
                    }
                }
                if k == key {
                    assert(after[at as int].0@ == k);
                }
            }
            assert forall|k: Seq<char>| entries_map(after).contains_key(k) implies entries_map(
                after,
            )[k] == entries_map(before).insert(key, value)[k] by {
                let i = choose|i: int| 0 <= i < after.len() && #[trigger] after[i].0@ == k;
                lemma_entry_lookup(after, i);
                if i < at {
                    lemma_entry_lookup(before, i);
                    lemma_lex_irreflexive(key);
                } else if i > at {
                    lemma_entry_lookup(before, i - 1);
                    assert(lex_less(after[at as int].0@, after[i].0@));
                    lemma_lex_irreflexive(key);
                }
            }
            assert(entries_map(after) =~= entries_map(before).insert(key, value));
        }
    }
}

/// The variables and `PATH` directories that a generated script sets up.
#[derive(Debug, Clone)]
pub struct EnvShellScript {
    envs: Vec<(String, String)>,
    paths: Vec<(String, bool)>,
}

impl EnvShellScript {
    /// Both lists are kept in ascending order of their names.
    pub closed spec fn well_formed(&self) -> bool {
        names_ascend(self.envs@) && names_ascend(self.paths@)
    }

    /// The value that each variable will be exported with.
    pub closed spec fn envs(&self) -> Map<Seq<char>, Seq<char>> {
        entries_map(self.envs@).map_values(|value: String| value@)
    }

    /// The directories to add; `true` puts a directory in front of `PATH`,
    /// `false` behind it.
    pub closed spec fn paths(&self) -> Map<Seq<char>, bool> {
        entries_map(self.paths@)
    }

    /// A script that sets nothing.
    pub fn new() -> (script: Self)
        ensures
            script.well_formed(),
            script.envs() == Map::<Seq<char>, Seq<char>>::empty(),
            script.paths() == Map::<Seq<char>, bool>::empty(),
    {
        let script = EnvShellScript { envs: Vec::new(), paths: Vec::new() };
        assert(script.envs() =~= Map::<Seq<char>, Seq<char>>::empty());
        assert(script.paths() =~= Map::<Seq<char>, bool>::empty());
        script
    }

    /// Asks for `key` to be exported as `value`; a later request for the same
    /// variable replaces an earlier one.
    pub fn put_env(&mut self, key: String, value: String)
        requires
            old(self).well_formed(),
        ensures
            final(self).well_formed(),
            final(self).envs() == old(self).envs().insert(key@, value@),
            final(self).paths() == old(self).paths(),
    {
        put_sorted(&mut self.envs, key, value);
        assert(self.envs() =~= old(self).envs().insert(key@, value@));
    }

    /// Asks for `path` to be added to `PATH`, in front when `prepends` holds
    /// and behind otherwise; a later request for the same directory replaces
    /// an earlier one.
    pub fn put_path(&mut self, path: String, prepends: bool)
        requires
            old(self).well_formed(),
        ensures
            final(self).well_formed(),
            final(self).envs() == old(self).envs(),
            final(self).paths() == old(self).paths().insert(path@, prepends),
    {
        put_sorted(&mut self.paths, path, prepends);
    }

    /// The text of the script.
    pub fn gen_shell_script(&self) -> (script: String)
        requires
            self.well_formed(),
        ensures
            script@ == shell_script(self.envs(), self.paths()),
    {
        let mut script = String::new();
        let ghost env_names = names_of(self.envs@);
        let ghost dirs = names_of(self.paths@);
        proof {
            lemma_names_list_map(self.envs@);
            lemma_names_list_map(self.paths@);
            assert(self.envs().dom() =~= entries_map(self.envs@).dom());
        }
        let mut i: usize = 0;
        while i < self.envs.len()
            invariant
                i <= self.envs.len(),
                self.well_formed(),
                env_names == names_of(self.envs@),
                script@ == export_lines(env_names.take(i as int), self.envs()),
            decreases self.envs.len() - i,
        {
            let key = self.envs[i].0.as_str();
            let quoted = single_quote_str_for_shell(self.envs[i].1.as_str());
            proof {
                lemma_entry_lookup(self.envs@, i as int);
                assert(env_names.take(i + 1).drop_last() == env_names.take(i as int));
                assert(env_names.take(i + 1).last() == key@);
                assert(self.envs()[key@] == self.envs@[i as int].1@);
            }
            script.append("if [ -z \"${");
            script.append(key);
            script.append(":-}\" ]; then export ");
            script.append(key);
            script.append("=");
            script.append(quoted.as_str());
            script.append("; fi\n");
            i = i + 1;
        }
        assert(env_names.take(i as int) == env_names);
        let ghost exports = script@;
        let mut n: usize = 0;
        while n < self.paths.len()
            invariant
                n <= self.paths.len(),
                self.well_formed(),
                dirs == names_of(self.paths@),
                script@ == exports + path_blocks(dirs.take(n as int), self.paths()),
            decreases self.paths.len() - n,
        {
            let dir = self.paths[n].0.as_str();
            let prepends = self.paths[n].1;
            let quoted = single_quote_str_for_shell(dir);
            proof {
                lemma_entry_lookup(self.paths@, n as int);
                assert(dirs.take(n + 1).drop_last() == dirs.take(n as int));
                assert(dirs.take(n + 1).last() == dir@);
            }
            script.append("__CANDIDATE_PATH=");
            script.append(quoted.as_str());
            script.append("\n__COLON_PATH=\":${PATH}:\"\n");
            if prepends {
                script.append(
                    "if [ \"${__COLON_PATH#*:${__CANDIDATE_PATH}:}\" = \"${__COLON_PATH}\" ]; then export PATH=\"${__CANDIDATE_PATH}:${PATH}\"; fi\n",
                );
            } else {
                script.append(
                    "if [ \"${__COLON_PATH#*:${__CANDIDATE_PATH}:}\" = \"${__COLON_PATH}\" ]; then export PATH=\"${PATH}:${__CANDIDATE_PATH}\"; fi\n",
                );
            }
            script.append("unset __CANDIDATE_PATH\nunset __COLON_PATH\n");
            n = n + 1;
        }
        assert(dirs.take(n as int) == dirs);
        script
    }
}

impl Default for EnvShellScript {
    fn default() -> (script: Self)
        ensures
            script.well_formed(),
            script.envs() == Map::<Seq<char>, Seq<char>>::empty(),
            script.paths() == Map::<Seq<char>, bool>::empty(),
    {
        EnvShellScript::new()
    }
}

} // verus!
