//! The recursive shortcut walk, as an explicit work list.
//!
//! The walk alternates with the caller: the caller pops a pending
//! directory, reads it (best effort: an unreadable directory reads as an
//! empty listing), and feeds the listing back. A fed subdirectory joins the
//! work list, whatever its depth; a fed shortcut file becomes an entry.
//! The walk itself never touches the filesystem, so every step is a total
//! function of the state and the listing.
use vstd::prelude::*;

use crate::entry::{ApplicationEntry, ChildModel, DirChild, EntryModel};
use crate::entry::{child_views, entry_views, lemma_entry_views_push, lemma_string_views_push, string_views};
use crate::scan::{ScanVariant, accept_child, accepts, entry_model, listing_entries};
use crate::sort::{sort_entries, sort_entries_spec};

verus! {

/// Mathematical value of a [`DirectoryWalk`]: the pending directories and
/// the entries found so far.
#[verifier::ext_equal]
pub ghost struct WalkModel {
    pub pending: Seq<Seq<char>>,
    pub found: Seq<EntryModel>,
}

/// One interaction of the caller with the walk: popping the next pending
/// directory, or feeding back the listing that was read for it.
pub ghost enum WalkEvent {
    Pop,
    Feed(Seq<ChildModel>),
}

/// The directories among the fed children, in listing order.
pub open spec fn dirs_of(cs: Seq<ChildModel>) -> Seq<Seq<char>>
    decreases cs.len(),
{
    if cs.len() == 0 {
        Seq::empty()
    } else {
        let rest = dirs_of(cs.drop_last());
        if cs.last().is_dir {
            rest.push(cs.last().path)
        } else {
            rest
        }
    }
}

/// What one event does to the walk state.
pub open spec fn walk_step(m: WalkModel, ev: WalkEvent) -> WalkModel {
    match ev {
        WalkEvent::Pop => if m.pending.len() == 0 {
            m
        } else {
            WalkModel { pending: m.pending.drop_last(), found: m.found }
        },
        WalkEvent::Feed(cs) => WalkModel {
            pending: m.pending + dirs_of(cs),
            found: m.found + listing_entries(ScanVariant::ShortcutFile, cs),
        },
    }
}

/// The state after a whole sequence of events.
pub open spec fn walk_run(m: WalkModel, evs: Seq<WalkEvent>) -> WalkModel
    decreases evs.len(),
{
    if evs.len() == 0 {
        m
    } else {
        walk_run(walk_step(m, evs.first()), evs.drop_first())
    }
}

/// The walk over shortcut files: a work list of directories still to read,
/// and the entries found so far.
pub struct DirectoryWalk {
    pending: Vec<String>,
    found: Vec<ApplicationEntry>,
}

impl View for DirectoryWalk {
    type V = WalkModel;

    closed spec fn view(&self) -> WalkModel {
        WalkModel { pending: string_views(self.pending@), found: entry_views(self.found@) }
    }
}

impl DirectoryWalk {
    /// Starts a walk over the given root directories. The roots are queued
    /// so that the first root is handed out first.
    pub fn new(roots: Vec<String>) -> (r: DirectoryWalk)
        ensures
            r@.pending == string_views(roots@).reverse(),
            r@.found == Seq::<EntryModel>::empty(),
    {
        broadcast use lemma_string_views_push;

        let mut roots = roots;
        let ghost all = string_views(roots@);
        let mut pending: Vec<String> = Vec::new();
        while roots.len() > 0
            invariant
                all.len() >= roots@.len(),
                string_views(roots@) == all.take(roots@.len() as int),
                string_views(pending@) == all.skip(roots@.len() as int).reverse(),
            decreases roots@.len(),
        {
            let ghost k = roots@.len() - 1;
            let ghost prev = roots@;
            let last = roots.pop().unwrap();
            proof {
                assert(string_views(prev) == all.take(k + 1));
                assert(string_views(prev)[k as int] == prev[k as int]@);
                assert(all.take(k + 1)[k as int] == all[k as int]);
                assert(last@ == all[k as int]);
                assert(string_views(roots@) =~= all.take(k as int));
                assert(string_views(pending@).push(last@) =~= all.skip(k as int).reverse());
            }
            pending.push(last);
        }
        proof {
            assert(string_views(pending@) =~= all.reverse());
            assert(all.skip(0) =~= all);
        }
        let r = DirectoryWalk { pending, found: Vec::new() };
        proof {
            assert(r@.found =~= Seq::<EntryModel>::empty());
        }
        r
    }

    /// Hands out the next directory to read, removing it from the work
    /// list; nothing is left to read when the work list is empty.
    pub fn next_dir(&mut self) -> (r: Option<String>)
        ensures
            final(self)@ == walk_step(old(self)@, WalkEvent::Pop),
            match r {
                Some(d) => old(self)@.pending.len() > 0 && d@ == old(self)@.pending.last(),
                None => old(self)@.pending.len() == 0,
            },
    {
        let ghost prev = self.pending@;
        let r = self.pending.pop();
        proof {
            if prev.len() > 0 {
                assert(string_views(self.pending@) =~= string_views(prev).drop_last());
            }
        }
        r
    }

    /// Feeds back the listing read for a popped directory: every
    /// subdirectory joins the work list, every shortcut file becomes an
    /// entry, in listing order.
    pub fn feed(&mut self, children: &Vec<DirChild>)
        ensures
            final(self)@ == walk_step(old(self)@, WalkEvent::Feed(child_views(children@))),
    {
        broadcast use lemma_string_views_push;
        broadcast use lemma_entry_views_push;

        let ghost cs = child_views(children@);
        let mut i: usize = 0;
        while i < children.len()
            invariant
                0 <= i <= children.len(),
                cs == child_views(children@),
                cs.len() == children@.len(),
                string_views(self.pending@) == old(self)@.pending + dirs_of(cs.take(i as int)),
                entry_views(self.found@) == old(self)@.found + listing_entries(
                    ScanVariant::ShortcutFile,
                    cs.take(i as int),
                ),
            decreases children.len() - i,
        {
            proof {
                assert(cs.take(i + 1).drop_last() =~= cs.take(i as int));
                assert(cs.take(i + 1).last() == cs[i as int]);
                assert(cs[i as int] == children@[i as int]@);
            }
            if children[i].is_dir {
                proof {
                    assert(cs[i as int].is_dir);
                    assert(!accepts(ScanVariant::ShortcutFile, cs[i as int]));
                }
                let d = children[i].path.clone();
                proof {
                    assert(string_views(self.pending@).push(d@) =~= old(self)@.pending + dirs_of(
                        cs.take(i + 1),
                    ));
                }
                self.pending.push(d);
            } else {
                match accept_child(&ScanVariant::ShortcutFile, &children[i]) {
                    Some(e) => {
                        proof {
                            assert(entry_views(self.found@).push(e@) =~= old(self)@.found
                                + listing_entries(ScanVariant::ShortcutFile, cs.take(i + 1)));
                        }
                        self.found.push(e);
                    },
                    None => {},
                }
            }
            i = i + 1;
        }
        proof {
            assert(cs.take(children@.len() as int) =~= cs);
        }
    }

    /// Ends the walk: every entry found, stably sorted by case-insensitive
    /// name.
    pub fn finish(self) -> (r: Vec<ApplicationEntry>)
        ensures
            entry_views(r@) == sort_entries_spec(self@.found),
    {
        let DirectoryWalk { pending: _, found } = self;
        sort_entries(found)
    }
}

/// Whether event `i` fed a listing whose child `j` was accepted as the
/// shortcut entry `e`.
pub open spec fn fed_accepted(evs: Seq<WalkEvent>, i: int, j: int, e: EntryModel) -> bool {
    &&& 0 <= i < evs.len()
    &&& (evs[i] matches WalkEvent::Feed(cs) && 0 <= j < cs.len() && accepts(
        ScanVariant::ShortcutFile,
        cs[j],
    ) && e == entry_model(ScanVariant::ShortcutFile, cs[j].path))
}

/// Whatever the caller does, the walk never drops an entry it has found:
/// the found entries only grow at the end.
pub proof fn lemma_walk_found_monotone(m: WalkModel, evs: Seq<WalkEvent>)
    ensures
        walk_run(m, evs).found.len() >= m.found.len(),
        forall|k: int| 0 <= k < m.found.len() ==> walk_run(m, evs).found[k] == m.found[k],
    decreases evs.len(),
{
    if evs.len() > 0 {
        let m1 = walk_step(m, evs.first());
        lemma_walk_found_monotone(m1, evs.drop_first());
        assert forall|k: int| 0 <= k < m.found.len() implies walk_run(m, evs).found[k]
            == m.found[k] by {
            assert(m1.found[k] == m.found[k]);
            assert(walk_run(m1, evs.drop_first()).found[k] == m1.found[k]);
        }
    }
}

/// A shortcut file fed to the walk at any point, from any directory depth,
/// is among the entries the walk ends with.
pub proof fn lemma_walk_keeps_fed_shortcuts(
    m: WalkModel,
    evs: Seq<WalkEvent>,
    i: int,
    j: int,
    e: EntryModel,
)
    requires
        fed_accepted(evs, i, j, e),
    ensures
        walk_run(m, evs).found.contains(e),
    decreases evs.len(),
{
    let cs = evs[i]->Feed_0;
    if i == 0 {
        let m1 = walk_step(m, evs.first());
        crate::scan::lemma_listing_entries_provenance(ScanVariant::ShortcutFile, cs);
        assert(listing_entries(ScanVariant::ShortcutFile, cs).contains(e));
        let k = choose|k: int|
            0 <= k < listing_entries(ScanVariant::ShortcutFile, cs).len() && listing_entries(
                ScanVariant::ShortcutFile,
                cs,
            )[k] == e;
        assert(m1.found[m.found.len() + k] == e);
        lemma_walk_found_monotone(m1, evs.drop_first());
        let final_found = walk_run(m, evs).found;
        assert(final_found[m.found.len() + k] == e);
    } else {
        assert(evs.drop_first()[i - 1] == evs[i]);
        assert(fed_accepted(evs.drop_first(), i - 1, j, e));
        lemma_walk_keeps_fed_shortcuts(walk_step(m, evs.first()), evs.drop_first(), i - 1, j, e);
    }
}

/// What a walk that started empty ends with, entry for entry: exactly the
/// entries that fed accepted shortcut children become — whatever the
/// depth they were fed from — and the same after the final sort.
pub proof fn lemma_walk_result_entries(m: WalkModel, evs: Seq<WalkEvent>)
    requires
        m.found == Seq::<EntryModel>::empty(),
    ensures
        forall|e: EntryModel| #[trigger] walk_run(m, evs).found.contains(e) <==> exists|i: int, j: int|
            fed_accepted(evs, i, j, e),
        forall|e: EntryModel| #[trigger] sort_entries_spec(walk_run(m, evs).found).contains(e)
            <==> exists|i: int, j: int| fed_accepted(evs, i, j, e),
{
    crate::sort::lemma_sort_entries_contains(walk_run(m, evs).found);
    lemma_walk_found_provenance(m, evs);
    assert forall|e: EntryModel|
        exists|i: int, j: int|
            fed_accepted(evs, i, j, e) implies #[trigger] walk_run(m, evs).found.contains(e) by {
        let (i, j) = choose|i: int, j: int| fed_accepted(evs, i, j, e);
        lemma_walk_keeps_fed_shortcuts(m, evs, i, j, e);
    }
}

/// Every entry the walk ends with was either there at the start or arose
/// from a fed child that the shortcut predicate accepted.
pub proof fn lemma_walk_found_provenance(m: WalkModel, evs: Seq<WalkEvent>)
    ensures
        forall|e: EntryModel| #[trigger] walk_run(m, evs).found.contains(e) ==> m.found.contains(e)
            || exists|i: int, j: int| fed_accepted(evs, i, j, e),
    decreases evs.len(),
{
    if evs.len() > 0 {
        let m1 = walk_step(m, evs.first());
        lemma_walk_found_provenance(m1, evs.drop_first());
        assert forall|e: EntryModel| #[trigger] walk_run(m, evs).found.contains(e) implies
            m.found.contains(e) || exists|i: int, j: int| fed_accepted(evs, i, j, e) by {
            assert(walk_run(m1, evs.drop_first()).found.contains(e));
            if m1.found.contains(e) {
                match evs.first() {
                    WalkEvent::Pop => {
                        assert(m.found.contains(e));
                    },
                    WalkEvent::Feed(cs) => {
                        let k = choose|k: int| 0 <= k < m1.found.len() && m1.found[k] == e;
                        if k < m.found.len() {
                            assert(m.found[k] == e);
                        } else {
                            crate::scan::lemma_listing_entries_provenance(
                                ScanVariant::ShortcutFile,
                                cs,
                            );
                            let le = listing_entries(ScanVariant::ShortcutFile, cs);
                            assert(le[k - m.found.len()] == e);
                            assert(le.contains(e));
                            let j = choose|j: int|
                                0 <= j < cs.len() && accepts(ScanVariant::ShortcutFile, cs[j]) && e
                                    == entry_model(ScanVariant::ShortcutFile, cs[j].path);
                            assert(fed_accepted(evs, 0, j, e));
                        }
                    },
                }
            } else {
                let (i, j) = choose|i: int, j: int| fed_accepted(evs.drop_first(), i, j, e);
                assert(evs[i + 1] == evs.drop_first()[i]);
                assert(fed_accepted(evs, i + 1, j, e));
            }
        }
    }
}

} // verus!
