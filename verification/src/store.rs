//! Association lists of named text entries, shared by both stores.
//!
//! A store is a vector of name/value string pairs, modelled as a sequence
//! of character-sequence pairs; the first entry with a given name wins.

use vstd::prelude::*;

use crate::text::{lemma_lex_le_total, lemma_lex_le_trans, lex_le, str_eq_string, str_le};

verus! {

/// The mathematical value of a list of string pairs.
pub open spec fn pairs_view(entries: Seq<(String, String)>) -> Seq<(Seq<char>, Seq<char>)> {
    entries.map_values(|p: (String, String)| (p.0@, p.1@))
}

/// Value stored under `name`, if any: the first entry with that key wins.
pub open spec fn assoc_lookup(
    entries: Seq<(Seq<char>, Seq<char>)>,
    name: Seq<char>,
) -> Option<Seq<char>>
    decreases entries.len(),
{
    if entries.len() == 0 {
        None
    } else if entries[0].0 == name {
        Some(entries[0].1)
    } else {
        assoc_lookup(entries.drop_first(), name)
    }
}

/// Whether some entry stores `name`.
pub open spec fn assoc_contains(entries: Seq<(Seq<char>, Seq<char>)>, name: Seq<char>) -> bool {
    assoc_lookup(entries, name) is Some
}

/// The names of the entries, in store order.
pub open spec fn assoc_keys(entries: Seq<(Seq<char>, Seq<char>)>) -> Seq<Seq<char>> {
    entries.map_values(|p: (Seq<char>, Seq<char>)| p.0)
}

/// A successful lookup names an entry of the store.
pub proof fn lemma_assoc_lookup_index(entries: Seq<(Seq<char>, Seq<char>)>, name: Seq<char>)
    requires
        assoc_lookup(entries, name) is Some,
    ensures
        exists|i: int|
            0 <= i < entries.len() && #[trigger] entries[i] == (
                name,
                assoc_lookup(entries, name)->Some_0,
            ),
    decreases entries.len(),
{
    if entries[0].0 == name {
        assert(entries[0] == (name, assoc_lookup(entries, name)->Some_0));
    } else {
        lemma_assoc_lookup_index(entries.drop_first(), name);
        let i = choose|i: int|
            0 <= i < entries.drop_first().len() && #[trigger] entries.drop_first()[i] == (
                name,
                assoc_lookup(entries.drop_first(), name)->Some_0,
            );
        assert(entries[i + 1] == (name, assoc_lookup(entries, name)->Some_0));
    }
}

/// The value stored under `key` in `entries`, or nothing.
pub fn pairs_get<'a>(entries: &'a Vec<(String, String)>, key: &str) -> (r: Option<&'a String>)
    ensures
        match r {
            Some(v) => assoc_lookup(pairs_view(entries@), key@) == Some(v@),
            None => assoc_lookup(pairs_view(entries@), key@) is None,
        },
{
    let ghost view = pairs_view(entries@);
    let mut i: usize = 0;
    proof {
        assert(view.skip(0) =~= view);
    }
    while i < entries.len()
        invariant
            view == pairs_view(entries@),
            view.len() == entries@.len(),
            0 <= i <= entries@.len(),
            assoc_lookup(view.skip(i as int), key@) == assoc_lookup(view, key@),
        decreases entries@.len() - i,
    {
        proof {
            assert(view.skip(i as int)[0] == view[i as int]);
            assert(view.skip(i as int).drop_first() =~= view.skip(i as int + 1));
            assert(view[i as int] == (entries@[i as int].0@, entries@[i as int].1@));
        }
        if str_eq_string(key, &entries[i].0) {
            return Some(&entries[i].1);
        }
        i = i + 1;
    }
    proof {
        assert(view.skip(entries@.len() as int) =~= Seq::<(Seq<char>, Seq<char>)>::empty());
    }
    None
}

/// The keys of `entries`, in store order.
pub fn pairs_keys(entries: &Vec<(String, String)>) -> (r: Vec<String>)
    ensures
        r.deep_view() == assoc_keys(pairs_view(entries@)),
{
    let ghost view = pairs_view(entries@);
    let mut keys: Vec<String> = Vec::new();
    let mut i: usize = 0;
    while i < entries.len()
        invariant
            view == pairs_view(entries@),
            view.len() == entries@.len(),
            0 <= i <= entries@.len(),
            keys.deep_view() == assoc_keys(view.take(i as int)),
        decreases entries@.len() - i,
    {
        let ghost pre = keys@;
        proof {
            assert(assoc_keys(view.take(i as int)).len() == i as int);
            assert(keys.deep_view().len() == pre.len());
        }
        keys.push(entries[i].0.clone());
        proof {
            assert(keys@ == pre.push(entries@[i as int].0));
            assert(view[i as int] == (entries@[i as int].0@, entries@[i as int].1@));
            assert forall|j: int| 0 <= j < i as int + 1 implies keys.deep_view()[j] == assoc_keys(
                view.take(i as int + 1),
            )[j] by {
                assert(keys.deep_view()[j] == keys@[j]@);
                assert(view.take(i as int + 1)[j] == view[j]);
                assert(view[j] == (entries@[j].0@, entries@[j].1@));
                if j < i as int {
                    assert(keys@[j] == pre[j]);
                    assert(keys.deep_view()[j] == assoc_keys(view.take(i as int))[j]);
                }
            }
            assert(keys.deep_view() =~= assoc_keys(view.take(i as int + 1)));
        }
        i = i + 1;
    }
    proof {
        assert(view.take(entries@.len() as int) =~= view);
    }
    keys
}

/// The names stand in lexicographic order, earlier to later.
pub open spec fn sorted_names(s: Seq<Seq<char>>) -> bool {
    forall|i: int, j: int| 0 <= i < j < s.len() ==> lex_le(#[trigger] s[i], #[trigger] s[j])
}

/// Insert `x` into the sorted vector `v`, keeping it sorted; the contents
/// gain exactly `x`.
pub fn sorted_insert(v: &mut Vec<String>, x: String)
    requires
        sorted_names(old(v).deep_view()),
    ensures
        sorted_names(final(v).deep_view()),
        final(v).deep_view().to_multiset() == old(v).deep_view().to_multiset().insert(x@),
{
    let ghost pre = v.deep_view();
    let mut idx: usize = 0;
    while idx < v.len() && str_le(&v[idx], &x)
        invariant
            pre == v.deep_view(),
            pre.len() == v@.len(),
            0 <= idx <= v@.len(),
            forall|j: int| 0 <= j < idx ==> lex_le(#[trigger] pre[j], x@),
        decreases v@.len() - idx,
    {
        proof {
            assert(pre[idx as int] == v@[idx as int]@);
        }
        idx = idx + 1;
    }
    proof {
        if idx < v@.len() {
            assert(pre[idx as int] == v@[idx as int]@);
            lemma_lex_le_total(pre[idx as int], x@);
        }
    }
    v.insert(idx, x);
    proof {
        broadcast use vstd::seq_lib::group_to_multiset_ensures;

        assert forall|m: int| 0 <= m < v.deep_view().len() implies v.deep_view()[m] == pre.insert(
            idx as int,
            x@,
        )[m] by {
            assert(v.deep_view()[m] == v@[m]@);
            if m < idx {
                assert(v@[m] == old(v)@[m]);
            } else if m == idx {
            } else {
                assert(v@[m] == old(v)@[m - 1]);
            }
        }
        assert(v.deep_view() =~= pre.insert(idx as int, x@));
        vstd::seq_lib::to_multiset_insert(pre, idx as int, x@);
        assert forall|i: int, j: int| 0 <= i < j < v.deep_view().len() implies lex_le(
            #[trigger] v.deep_view()[i],
            #[trigger] v.deep_view()[j],
        ) by {
            let dv = v.deep_view();
            if j < idx {
                assert(dv[i] == pre[i] && dv[j] == pre[j]);
            } else if j == idx {
                assert(dv[i] == pre[i] && dv[j] == x@);
            } else if i < idx {
                assert(dv[i] == pre[i] && dv[j] == pre[j - 1]);
            } else if i == idx {
                assert(dv[i] == x@ && dv[j] == pre[j - 1]);
                assert(lex_le(x@, pre[idx as int]));
                if j - 1 > idx {
                    assert(lex_le(pre[idx as int], pre[j - 1]));
                    lemma_lex_le_trans(x@, pre[idx as int], pre[j - 1]);
                }
            } else {
                assert(dv[i] == pre[i - 1] && dv[j] == pre[j - 1]);
            }
        }
    }
}

} // verus!
