//! The order in which names are emitted: facts about [`lex_less`] and about
//! strictly ascending listings of a set of names.

use vstd::prelude::*;
use crate::text::lex_less;

verus! {

/// No sequence is below itself.
pub proof fn lemma_lex_irreflexive(a: Seq<char>)
    ensures
        !lex_less(a, a),
    decreases a.len(),
{
    if a.len() > 0 {
        lemma_lex_irreflexive(a.drop_first());
    }
}

/// Two different sequences are ordered one way or the other.
pub proof fn lemma_lex_total(a: Seq<char>, b: Seq<char>)
    requires
        a != b,
    ensures
        lex_less(a, b) || lex_less(b, a),
    decreases a.len(),
{
    if a.len() > 0 && b.len() > 0 && a[0] == b[0] {
        if a.drop_first() == b.drop_first() {
            assert(a =~= seq![a[0]] + a.drop_first());
            assert(b =~= seq![b[0]] + b.drop_first());
        }
        lemma_lex_total(a.drop_first(), b.drop_first());
    } else if a.len() == 0 && b.len() == 0 {
        assert(a =~= b);
    }
}

/// The order is transitive.
pub proof fn lemma_lex_transitive(a: Seq<char>, b: Seq<char>, c: Seq<char>)
    requires
        lex_less(a, b),
        lex_less(b, c),
    ensures
        lex_less(a, c),
    decreases a.len(),
{
    if a.len() > 0 && a[0] == b[0] && b[0] == c[0] {
        lemma_lex_transitive(a.drop_first(), b.drop_first(), c.drop_first());
    }
}

/// `keys` lists exactly the members of `names`, each once, in ascending order.
pub open spec fn is_ascending_listing(keys: Seq<Seq<char>>, names: Set<Seq<char>>) -> bool {
    &&& forall|k: Seq<char>| keys.contains(k) <==> names.contains(k)
    &&& forall|i: int, j: int| 0 <= i < j < keys.len() ==> lex_less(#[trigger] keys[i], #[trigger] keys[j])
}

/// The members of `names` in ascending order.
pub open spec fn ascending(names: Set<Seq<char>>) -> Seq<Seq<char>> {
    choose|keys: Seq<Seq<char>>| is_ascending_listing(keys, names)
}

/// A set has at most one ascending listing.
pub proof fn lemma_listing_unique(a: Seq<Seq<char>>, b: Seq<Seq<char>>, names: Set<Seq<char>>)
    requires
        is_ascending_listing(a, names),
        is_ascending_listing(b, names),
    ensures
        a == b,
    decreases a.len(),
{
    if a.len() == 0 {
        if b.len() > 0 {
            assert(b.contains(b[0]));
            assert(a.contains(b[0]));
        }
        assert(a =~= b);
    } else {
        assert(a.contains(a[0]));
        assert(b.contains(a[0]));
        let k = choose|k: int| 0 <= k < b.len() && b[k] == a[0];
        assert(b.contains(b[0]));
        assert(a.contains(b[0]));
        let m = choose|m: int| 0 <= m < a.len() && a[m] == b[0];
        if k > 0 {
            assert(lex_less(b[0], b[k]));
            if m > 0 {
                assert(lex_less(a[0], a[m]));
                lemma_lex_transitive(a[0], b[0], a[0]);
            }
            lemma_lex_irreflexive(a[0]);
        }
        assert(a[0] == b[0]);
        let rest = names.remove(a[0]);
        let at = a.drop_first();
        let bt = b.drop_first();
        assert forall|x: Seq<char>| at.contains(x) <==> rest.contains(x) by {
            lemma_lex_irreflexive(a[0]);
            if at.contains(x) {
                let i = choose|i: int| 0 <= i < at.len() && at[i] == x;
                assert(a[i + 1] == x);
                assert(lex_less(a[0], a[i + 1]));
                assert(a.contains(x));
            }
            if rest.contains(x) {
                assert(a.contains(x));
                let i = choose|i: int| 0 <= i < a.len() && a[i] == x;
                assert(at[i - 1] == x);
            }
        }
        assert forall|x: Seq<char>| bt.contains(x) <==> rest.contains(x) by {
            lemma_lex_irreflexive(b[0]);
            if bt.contains(x) {
                let i = choose|i: int| 0 <= i < bt.len() && bt[i] == x;
                assert(b[i + 1] == x);
                assert(lex_less(b[0], b[i + 1]));
                assert(b.contains(x));
            }
            if rest.contains(x) {
                assert(b.contains(x));
                let i = choose|i: int| 0 <= i < b.len() && b[i] == x;
                assert(bt[i - 1] == x);
            }
        }
        assert forall|i: int, j: int| 0 <= i < j < at.len() implies lex_less(
            #[trigger] at[i],
            #[trigger] at[j],
        ) by {
            assert(lex_less(a[i + 1], a[j + 1]));
        }
        assert forall|i: int, j: int| 0 <= i < j < bt.len() implies lex_less(
            #[trigger] bt[i],
            #[trigger] bt[j],
        ) by {
            assert(lex_less(b[i + 1], b[j + 1]));
        }
        lemma_listing_unique(at, bt, rest);
        assert(a =~= seq![a[0]] + at);
        assert(b =~= seq![b[0]] + bt);
    }
}

/// Any ascending listing of a set is *the* ascending listing of it.
pub proof fn lemma_listing_is_ascending(keys: Seq<Seq<char>>, names: Set<Seq<char>>)
    requires
        is_ascending_listing(keys, names),
    ensures
        ascending(names) == keys,
{
    lemma_listing_unique(ascending(names), keys, names);
}

} // verus!
