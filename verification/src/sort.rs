//! Stable sorting of entries by case-insensitive name.
//!
//! The result of the sort is pinned exactly: it equals a spec-level
//! insertion sort that inserts each element after every earlier element
//! whose key comes no later, so equal names keep their discovery order.
use vstd::multiset::Multiset;
use vstd::prelude::*;

use crate::entry::{ApplicationEntry, EntryModel, entry_views, lemma_entry_views_push};
use crate::order::{lower_key, lemma_lex_le_total, lemma_lex_le_trans, lex_le, name_le};

verus! {

/// The sort order: `a` comes no later than `b` when its lowercased name
/// key does.
pub open spec fn entry_le(a: EntryModel, b: EntryModel) -> bool {
    lex_le(lower_key(a.name), lower_key(b.name))
}

/// `e` inserted into `s` after every element whose key comes no later than
/// `e`'s: the stable insertion position.
pub open spec fn insert_sorted(s: Seq<EntryModel>, e: EntryModel) -> Seq<EntryModel>
    decreases s.len(),
{
    if s.len() == 0 {
        seq![e]
    } else if entry_le(s.last(), e) {
        s.push(e)
    } else {
        insert_sorted(s.drop_last(), e).push(s.last())
    }
}

/// The stable insertion sort of `s` by case-insensitive name.
pub open spec fn sort_entries_spec(s: Seq<EntryModel>) -> Seq<EntryModel>
    decreases s.len(),
{
    if s.len() == 0 {
        Seq::empty()
    } else {
        insert_sorted(sort_entries_spec(s.drop_last()), s.last())
    }
}

/// Sortedness by case-insensitive name: every earlier element comes no
/// later than every later one.
pub open spec fn sorted_ci(s: Seq<EntryModel>) -> bool {
    forall|i: int, j: int| 0 <= i < j < s.len() ==> entry_le(s[i], s[j])
}

/// What `insert_sorted` holds: the elements of `s` and `e`, nothing else.
pub proof fn lemma_insert_sorted_contains(s: Seq<EntryModel>, e: EntryModel)
    ensures
        forall|x: EntryModel| #[trigger] insert_sorted(s, e).contains(x) <==> (s.contains(x) || x
            == e),
        insert_sorted(s, e).len() == s.len() + 1,
    decreases s.len(),
{
    if s.len() == 0 {
        assert forall|x: EntryModel| #[trigger] insert_sorted(s, e).contains(x) implies (s.contains(
            x,
        ) || x == e) by {
            assert(insert_sorted(s, e)[0] == e);
        }
        assert(insert_sorted(s, e)[0] == e);
    } else if entry_le(s.last(), e) {
        assert forall|x: EntryModel| #[trigger] insert_sorted(s, e).contains(x) implies (s.contains(
            x,
        ) || x == e) by {
            let k = choose|k: int| 0 <= k < insert_sorted(s, e).len() && insert_sorted(s, e)[k]
                == x;
            if k < s.len() {
                assert(s[k] == x);
            }
        }
        assert forall|x: EntryModel| s.contains(x) || x == e implies #[trigger] insert_sorted(
            s,
            e,
        ).contains(x) by {
            if s.contains(x) {
                let k = choose|k: int| 0 <= k < s.len() && s[k] == x;
                assert(insert_sorted(s, e)[k] == x);
            } else {
                assert(insert_sorted(s, e)[s.len() as int] == x);
            }
        }
    } else {
        lemma_insert_sorted_contains(s.drop_last(), e);
        let t = insert_sorted(s.drop_last(), e);
        assert forall|x: EntryModel| #[trigger] insert_sorted(s, e).contains(x) implies (s.contains(
            x,
        ) || x == e) by {
            let k = choose|k: int| 0 <= k < insert_sorted(s, e).len() && insert_sorted(s, e)[k]
                == x;
            if k < t.len() {
                assert(t.contains(x));
                if s.drop_last().contains(x) {
                    let k2 = choose|k2: int| 0 <= k2 < s.drop_last().len() && s.drop_last()[k2]
                        == x;
                    assert(s[k2] == x);
                }
            } else {
                assert(x == s.last());
                assert(s[s.len() - 1] == x);
            }
        }
        assert forall|x: EntryModel| s.contains(x) || x == e implies #[trigger] insert_sorted(
            s,
            e,
        ).contains(x) by {
            if x == s.last() {
                assert(insert_sorted(s, e)[t.len() as int] == x);
            } else if x == e {
                assert(t.contains(x));
                let k = choose|k: int| 0 <= k < t.len() && t[k] == x;
                assert(insert_sorted(s, e)[k] == x);
            } else {
                let k = choose|k: int| 0 <= k < s.len() && s[k] == x;
                if k < s.len() - 1 {
                    assert(s.drop_last()[k] == x);
                    assert(t.contains(x));
                    let k2 = choose|k2: int| 0 <= k2 < t.len() && t[k2] == x;
                    assert(insert_sorted(s, e)[k2] == x);
                } else {
                    assert(insert_sorted(s, e)[t.len() as int] == x);
                }
            }
        }
    }
}

/// Inserting into a sorted sequence keeps it sorted.
pub proof fn lemma_insert_sorted_sorted(s: Seq<EntryModel>, e: EntryModel)
    requires
        sorted_ci(s),
    ensures
        sorted_ci(insert_sorted(s, e)),
    decreases s.len(),
{
    if s.len() == 0 {
    } else if entry_le(s.last(), e) {
        let t = s.push(e);
        assert forall|i: int, j: int| 0 <= i < j < t.len() implies entry_le(t[i], t[j]) by {
            if j == s.len() {
                if i < s.len() - 1 {
                    assert(entry_le(s[i], s[s.len() - 1]));
                    lemma_lex_le_trans(
                        lower_key(s[i].name),
                        lower_key(s.last().name),
                        lower_key(e.name),
                    );
                }
            }
        }
    } else {
        assert(sorted_ci(s.drop_last()));
        lemma_insert_sorted_sorted(s.drop_last(), e);
        lemma_insert_sorted_contains(s.drop_last(), e);
        let t = insert_sorted(s.drop_last(), e);
        let u = t.push(s.last());
        lemma_lex_le_total(lower_key(s.last().name), lower_key(e.name));
        assert forall|i: int, j: int| 0 <= i < j < u.len() implies entry_le(u[i], u[j]) by {
            if j == t.len() {
                assert(t.contains(t[i]));
                if t[i] == e {
                } else {
                    assert(s.drop_last().contains(t[i]));
                    let k = choose|k: int| 0 <= k < s.drop_last().len() && s.drop_last()[k] == t[i];
                    assert(s[k] == t[i]);
                    assert(entry_le(s[k], s.last()));
                }
            }
        }
    }
}

/// The sort's result is sorted by case-insensitive name: for any two
/// positions `i < j`, the name at `i` comes no later than the name at `j`.
pub proof fn lemma_sort_entries_sorted(s: Seq<EntryModel>)
    ensures
        sorted_ci(sort_entries_spec(s)),
    decreases s.len(),
{
    if s.len() > 0 {
        lemma_sort_entries_sorted(s.drop_last());
        lemma_insert_sorted_sorted(sort_entries_spec(s.drop_last()), s.last());
    }
}

/// The sort keeps exactly the scanned entries: it contains an entry if and
/// only if the input does, and it has the same length.
pub proof fn lemma_sort_entries_contains(s: Seq<EntryModel>)
    ensures
        forall|x: EntryModel| #[trigger] sort_entries_spec(s).contains(x) <==> s.contains(x),
        sort_entries_spec(s).len() == s.len(),
    decreases s.len(),
{
    if s.len() > 0 {
        lemma_sort_entries_contains(s.drop_last());
        lemma_insert_sorted_contains(sort_entries_spec(s.drop_last()), s.last());
        assert forall|x: EntryModel| #[trigger] sort_entries_spec(s).contains(x) implies s.contains(
            x,
        ) by {
            if x != s.last() {
                let k = choose|k: int| 0 <= k < s.drop_last().len() && s.drop_last()[k] == x;
                assert(s[k] == x);
            } else {
                assert(s[s.len() - 1] == x);
            }
        }
        assert forall|x: EntryModel| s.contains(x) implies #[trigger] sort_entries_spec(
            s,
        ).contains(x) by {
            let k = choose|k: int| 0 <= k < s.len() && s[k] == x;
            if k < s.len() - 1 {
                assert(s.drop_last()[k] == x);
            }
        }
    }
}

/// Inserting adds exactly one occurrence of the inserted element.
pub proof fn lemma_insert_sorted_multiset(s: Seq<EntryModel>, e: EntryModel)
    ensures
        insert_sorted(s, e).to_multiset() == s.to_multiset().insert(e),
    decreases s.len(),
{
    broadcast use vstd::seq_lib::group_to_multiset_ensures;

    if s.len() == 0 {
        assert(seq![e] =~= Seq::<EntryModel>::empty().push(e));
        assert(s.to_multiset() =~= Multiset::<EntryModel>::empty());
    } else if entry_le(s.last(), e) {
    } else {
        lemma_insert_sorted_multiset(s.drop_last(), e);
        assert(s.drop_last().push(s.last()) =~= s);
        assert(s.drop_last().to_multiset().insert(e).insert(s.last()) =~= s.drop_last()
            .to_multiset().insert(s.last()).insert(e));
    }
}

/// The sort is a permutation: every entry occurs in the result exactly as
/// often as it was accumulated, so nothing is duplicated or dropped.
pub proof fn lemma_sort_entries_multiset(s: Seq<EntryModel>)
    ensures
        sort_entries_spec(s).to_multiset() == s.to_multiset(),
    decreases s.len(),
{
    broadcast use vstd::seq_lib::group_to_multiset_ensures;

    if s.len() > 0 {
        lemma_sort_entries_multiset(s.drop_last());
        lemma_insert_sorted_multiset(sort_entries_spec(s.drop_last()), s.last());
        assert(s.drop_last().push(s.last()) =~= s);
    }
}

/// Sorting leaves a sequence that is already sorted untouched: repeating
/// the sort of an unchanged input cannot reorder anything.
pub proof fn lemma_sort_already_sorted(s: Seq<EntryModel>)
    requires
        sorted_ci(s),
    ensures
        sort_entries_spec(s) == s,
    decreases s.len(),
{
    if s.len() > 0 {
        assert(sorted_ci(s.drop_last()));
        lemma_sort_already_sorted(s.drop_last());
        if s.len() == 1 {
            assert(insert_sorted(s.drop_last(), s.last()) =~= s);
        } else {
            assert(entry_le(s[s.len() - 2], s[s.len() - 1]));
            assert(s.drop_last().last() == s[s.len() - 2]);
            assert(s.drop_last().push(s.last()) =~= s);
        }
    }
}

/// Inserts `e` into the sorted vector `out` at its stable position.
fn insert_entry(out: &mut Vec<ApplicationEntry>, e: ApplicationEntry)
    ensures
        entry_views(final(out)@) == insert_sorted(entry_views(old(out)@), e@),
    decreases old(out)@.len(),
{
    broadcast use lemma_entry_views_push;

    let ghost s = entry_views(out@);
    if out.len() == 0 {
        out.push(e);
        proof {
            assert(entry_views(old(out)@).push(e@) =~= seq![e@]);
        }
    } else {
        let last_le = name_le(out[out.len() - 1].name.as_str(), e.name.as_str());
        proof {
            assert(s.last() == entry_views(out@)[out@.len() - 1]);
        }
        if last_le {
            out.push(e);
        } else {
            let last = out.pop().unwrap();
            proof {
                assert(entry_views(out@) =~= s.drop_last());
            }
            insert_entry(out, e);
            out.push(last);
        }
    }
}

/// Sorts the entries stably by case-insensitive name; the result is exactly
/// the spec-level insertion sort of the input.
pub fn sort_entries(v: Vec<ApplicationEntry>) -> (r: Vec<ApplicationEntry>)
    ensures
        entry_views(r@) == sort_entries_spec(entry_views(v@)),
{
    let mut v = v;
    let ghost orig = entry_views(v@);
    let mut out: Vec<ApplicationEntry> = Vec::new();
    while v.len() > 0
        invariant
            v@.len() <= orig.len(),
            entry_views(v@) == orig.skip(orig.len() - v@.len()),
            entry_views(out@) == sort_entries_spec(orig.take(orig.len() - v@.len())),
        decreases v@.len(),
    {
        let ghost i = orig.len() - v@.len();
        proof {
            assert(orig.take(i + 1).drop_last() =~= orig.take(i as int));
            assert(orig.take(i + 1).last() == orig[i as int]);
        }
        let ghost prev = v@;
        let e = v.remove(0);
        proof {
            assert(e@ == orig.skip(i as int)[0]);
            assert(orig.skip(i as int)[0] == orig[i as int]);
            assert(v@ == prev.remove(0));
            assert forall|k: int| 0 <= k < v@.len() implies entry_views(v@)[k] == orig.skip(
                i + 1,
            )[k] by {
                assert(v@[k] == prev[k + 1]);
                assert(entry_views(prev)[k + 1] == orig.skip(i as int)[k + 1]);
            }
            assert(entry_views(v@) =~= orig.skip(i + 1));
        }
        insert_entry(&mut out, e);
    }
    proof {
        assert(orig.skip(0) =~= orig);
        assert(orig.take(orig.len() as int) =~= orig);
    }
    out
}

} // verus!
