//! Filtering directory listings down to application entries.
//!
//! A scan variant fixes what counts as an application: a directory whose
//! name carries the bundle suffix, or a plain file whose name carries the
//! shortcut suffix. An accepted child becomes an entry whose name is the
//! file name with the suffix stripped and whose path is kept verbatim.
use vstd::prelude::*;

use crate::entry::{ApplicationEntry, ChildModel, DirChild, EntryModel};
use crate::entry::{child_views, entry_views, lemma_entry_views_push};
use crate::names::{ext_of, file_name_in, find_last, stem_of, str_eq};
use crate::sort::{sort_entries, sort_entries_spec};

verus! {

/// The two platform families of application discovery: bundle directories
/// under fixed roots, or shortcut files under start-menu roots.
#[derive(Clone, Copy, PartialEq, Eq, Structural)]
pub enum ScanVariant {
    BundleDirectory,
    ShortcutFile,
}

impl ScanVariant {
    /// The path separator this variant's platform writes.
    pub open spec fn separator(self) -> char {
        match self {
            ScanVariant::BundleDirectory => '/',
            ScanVariant::ShortcutFile => '\\',
        }
    }

    /// The file-name suffix that marks an application.
    pub open spec fn suffix(self) -> Seq<char> {
        match self {
            ScanVariant::BundleDirectory => "app"@,
            ScanVariant::ShortcutFile => "lnk"@,
        }
    }

    /// Whether the variant accepts directories (bundles) or plain files
    /// (shortcuts).
    pub open spec fn wants_dir(self) -> bool {
        match self {
            ScanVariant::BundleDirectory => true,
            ScanVariant::ShortcutFile => false,
        }
    }

    /// The separator, as an executable value.
    pub fn separator_x(&self) -> (r: char)
        ensures
            r == self.separator(),
    {
        match self {
            ScanVariant::BundleDirectory => '/',
            ScanVariant::ShortcutFile => '\\',
        }
    }

    /// The suffix, as an executable value.
    pub fn suffix_x(&self) -> (r: &'static str)
        ensures
            r@ == self.suffix(),
    {
        match self {
            ScanVariant::BundleDirectory => "app",
            ScanVariant::ShortcutFile => "lnk",
        }
    }

    /// Whether directories are accepted, as an executable value.
    pub fn wants_dir_x(&self) -> (r: bool)
        ensures
            r == self.wants_dir(),
    {
        match self {
            ScanVariant::BundleDirectory => true,
            ScanVariant::ShortcutFile => false,
        }
    }
}

/// Whether a listing child counts as an application under variant `v`:
/// the right kind of filesystem object, and a file name whose extension is
/// exactly the variant's suffix.
pub open spec fn accepts(v: ScanVariant, c: ChildModel) -> bool {
    &&& c.is_dir == v.wants_dir()
    &&& ext_of(file_name_in(c.path, v.separator())) == Some(v.suffix())
}

/// The entry an accepted child becomes: the file name's stem as display
/// name, the path kept verbatim.
pub open spec fn entry_model(v: ScanVariant, path: Seq<char>) -> EntryModel {
    EntryModel { name: stem_of(file_name_in(path, v.separator())), path: path }
}

/// The entries one directory listing contributes, in listing order.
pub open spec fn listing_entries(v: ScanVariant, cs: Seq<ChildModel>) -> Seq<EntryModel>
    decreases cs.len(),
{
    if cs.len() == 0 {
        Seq::empty()
    } else {
        let rest = listing_entries(v, cs.drop_last());
        if accepts(v, cs.last()) {
            rest.push(entry_model(v, cs.last().path))
        } else {
            rest
        }
    }
}

/// Decides one listing child: the entry it becomes under variant `v`, or
/// nothing when it is not an application.
pub fn accept_child(v: &ScanVariant, child: &DirChild) -> (r: Option<ApplicationEntry>)
    ensures
        r is Some <==> accepts(*v, child@),
        r matches Some(e) ==> e@ == entry_model(*v, child@.path),
{
    if child.is_dir != v.wants_dir_x() {
        return None;
    }
    let s: &str = child.path.as_str();
    let n: usize = s.unicode_len();
    let start: usize = match find_last(s, v.separator_x()) {
        Some(j) => j + 1,
        None => 0,
    };
    let fname: &str = s.substring_char(start, n);
    proof {
        assert(fname@ =~= file_name_in(child@.path, v.separator()));
    }
    let m: usize = n - start;
    match find_last(fname, '.') {
        None => {
            proof {
                assert(ext_of(fname@) is None);
            }
            None
        },
        Some(j) if j == 0 => {
            proof {
                assert(ext_of(fname@) is None);
            }
            None
        },
        Some(j) => {
            let ext: &str = fname.substring_char(j + 1, m);
            proof {
                assert(ext@ =~= fname@.skip(j + 1));
                assert(ext_of(fname@) == Some(fname@.skip(j as int + 1)));
            }
            if str_eq(ext, v.suffix_x()) {
                let name: String = fname.substring_char(0, j).to_owned();
                proof {
                    assert(name@ =~= stem_of(fname@));
                }
                Some(ApplicationEntry { name, path: child.path.clone() })
            } else {
                None
            }
        },
    }
}

/// Appends to `out` the entries that the listing `children` contributes
/// under variant `v`, in listing order.
pub fn collect_listing(v: &ScanVariant, children: &Vec<DirChild>, out: &mut Vec<ApplicationEntry>)
    ensures
        entry_views(final(out)@) == entry_views(old(out)@) + listing_entries(
            *v,
            child_views(children@),
        ),
{
    broadcast use lemma_entry_views_push;

    let ghost cs = child_views(children@);
    let mut i: usize = 0;
    while i < children.len()
        invariant
            0 <= i <= children.len(),
            cs == child_views(children@),
            cs.len() == children@.len(),
            entry_views(out@) == entry_views(old(out)@) + listing_entries(*v, cs.take(i as int)),
        decreases children.len() - i,
    {
        proof {
            assert(cs.take(i + 1).drop_last() =~= cs.take(i as int));
            assert(cs.take(i + 1).last() == cs[i as int]);
            assert(cs[i as int] == children@[i as int]@);
        }
        match accept_child(v, &children[i]) {
            Some(e) => {
                proof {
                    assert(entry_views(out@).push(e@) =~= entry_views(old(out)@)
                        + listing_entries(*v, cs.take(i + 1)));
                }
                out.push(e);
            },
            None => {},
        }
        i = i + 1;
    }
    proof {
        assert(cs.take(children@.len() as int) =~= cs);
    }
}

/// What a listing contributes, element for element: an entry is
/// contributed if and only if some child of the listing is accepted and
/// the entry is the one that child becomes.
pub proof fn lemma_listing_entries_provenance(v: ScanVariant, cs: Seq<ChildModel>)
    ensures
        forall|e: EntryModel| #[trigger] listing_entries(v, cs).contains(e) <==> exists|j: int|
            0 <= j < cs.len() && accepts(v, #[trigger] cs[j]) && e == entry_model(v, cs[j].path),
    decreases cs.len(),
{
    if cs.len() > 0 {
        lemma_listing_entries_provenance(v, cs.drop_last());
        let rest = listing_entries(v, cs.drop_last());
        let whole = listing_entries(v, cs);
        assert forall|e: EntryModel| #[trigger] whole.contains(e) implies exists|j: int|
            0 <= j < cs.len() && accepts(v, #[trigger] cs[j]) && e == entry_model(
            v,
            cs[j].path,
        ) by {
            let k = choose|k: int| 0 <= k < whole.len() && whole[k] == e;
            if k < rest.len() {
                assert(rest[k] == e);
                assert(rest.contains(e));
                let j = choose|j: int|
                    0 <= j < cs.drop_last().len() && accepts(v, cs.drop_last()[j]) && e
                        == entry_model(v, cs.drop_last()[j].path);
                assert(cs[j] == cs.drop_last()[j]);
            } else {
                assert(accepts(v, cs[cs.len() - 1]));
            }
        }
        assert forall|e: EntryModel|
            exists|j: int|
                0 <= j < cs.len() && accepts(v, #[trigger] cs[j]) && e == entry_model(
                    v,
                    cs[j].path,
                ) implies #[trigger] whole.contains(e) by {
            let j = choose|j: int|
                0 <= j < cs.len() && accepts(v, cs[j]) && e == entry_model(v, cs[j].path);
            if j < cs.len() - 1 {
                assert(cs.drop_last()[j] == cs[j]);
                assert(rest.contains(e));
                let k = choose|k: int| 0 <= k < rest.len() && rest[k] == e;
                assert(whole[k] == e);
            } else {
                assert(whole[whole.len() - 1] == e);
            }
        }
    }
}

/// The entries a sequence of root listings contributes, root by root in
/// the given order.
pub open spec fn roots_entries(v: ScanVariant, ls: Seq<Seq<ChildModel>>) -> Seq<EntryModel>
    decreases ls.len(),
{
    if ls.len() == 0 {
        Seq::empty()
    } else {
        roots_entries(v, ls.drop_last()) + listing_entries(v, ls.last())
    }
}

/// View of a sequence of listings, element by element.
pub open spec fn listing_views(ls: Seq<Vec<DirChild>>) -> Seq<Seq<ChildModel>> {
    ls.map_values(|l: Vec<DirChild>| child_views(l@))
}

/// Whether child `j` of root listing `i` is accepted under `v` as the
/// entry `e`.
pub open spec fn root_child_accepted(
    v: ScanVariant,
    ls: Seq<Seq<ChildModel>>,
    i: int,
    j: int,
    e: EntryModel,
) -> bool {
    &&& 0 <= i < ls.len()
    &&& 0 <= j < ls[i].len()
    &&& accepts(v, ls[i][j])
    &&& e == entry_model(v, ls[i][j].path)
}

/// What the whole non-recursive scan contributes: an entry appears if and
/// only if some direct child of some root listing is accepted and the
/// entry is the one that child becomes. In particular nothing deeper than
/// a direct child of a root can appear.
pub proof fn lemma_roots_entries_provenance(v: ScanVariant, ls: Seq<Seq<ChildModel>>)
    ensures
        forall|e: EntryModel| #[trigger] roots_entries(v, ls).contains(e) <==> exists|i: int, j: int|
            root_child_accepted(v, ls, i, j, e),
    decreases ls.len(),
{
    if ls.len() > 0 {
        lemma_roots_entries_provenance(v, ls.drop_last());
        lemma_listing_entries_provenance(v, ls.last());
        let rest = roots_entries(v, ls.drop_last());
        let lastl = listing_entries(v, ls.last());
        let whole = roots_entries(v, ls);
        assert forall|e: EntryModel| #[trigger] whole.contains(e) implies exists|i: int, j: int|
            root_child_accepted(v, ls, i, j, e) by {
            let k = choose|k: int| 0 <= k < whole.len() && whole[k] == e;
            if k < rest.len() {
                assert(rest[k] == e);
                assert(rest.contains(e));
                let (i, j) = choose|i: int, j: int| root_child_accepted(v, ls.drop_last(), i, j, e);
                assert(ls[i] == ls.drop_last()[i]);
                assert(root_child_accepted(v, ls, i, j, e));
            } else {
                assert(lastl[k - rest.len()] == e);
                assert(lastl.contains(e));
                let j = choose|j: int|
                    0 <= j < ls.last().len() && accepts(v, ls.last()[j]) && e == entry_model(
                        v,
                        ls.last()[j].path,
                    );
                assert(ls[ls.len() - 1] == ls.last());
                assert(root_child_accepted(v, ls, ls.len() - 1, j, e));
            }
        }
        assert forall|e: EntryModel|
            exists|i: int, j: int|
                root_child_accepted(v, ls, i, j, e) implies #[trigger] whole.contains(e) by {
            let (i, j) = choose|i: int, j: int| root_child_accepted(v, ls, i, j, e);
            if i < ls.len() - 1 {
                assert(root_child_accepted(v, ls.drop_last(), i, j, e));
                assert(ls.drop_last()[i] == ls[i]);
                assert(rest.contains(e));
                let k = choose|k: int| 0 <= k < rest.len() && rest[k] == e;
                assert(whole[k] == e);
            } else {
                assert(ls.last() == ls[i]);
                assert(lastl.contains(e));
                let k = choose|k: int| 0 <= k < lastl.len() && lastl[k] == e;
                assert(whole[rest.len() + k] == e);
            }
        }
    }
}

/// What the sorted scan result holds, entry for entry: exactly the entries
/// that accepted direct children of the root listings become. An
/// application nested deeper than a direct child of a root is never
/// among them.
pub proof fn lemma_scan_provenance(v: ScanVariant, ls: Seq<Seq<ChildModel>>)
    ensures
        forall|e: EntryModel| #[trigger] sort_entries_spec(roots_entries(v, ls)).contains(e) <==>
            exists|i: int, j: int| root_child_accepted(v, ls, i, j, e),
{
    crate::sort::lemma_sort_entries_contains(roots_entries(v, ls));
    lemma_roots_entries_provenance(v, ls);
}

/// Scans the direct children of each root listing under variant `v` and
/// returns every accepted entry, stably sorted by case-insensitive name.
///
/// This is the whole discovery pipeline for the non-recursive variant: the
/// caller reads each root directory (an unreadable or missing root becomes
/// an empty listing) and hands the listings over in root order.
pub fn scan_listings(v: &ScanVariant, listings: &Vec<Vec<DirChild>>) -> (r: Vec<ApplicationEntry>)
    ensures
        entry_views(r@) == sort_entries_spec(roots_entries(*v, listing_views(listings@))),
{
    let ghost ls = listing_views(listings@);
    let mut acc: Vec<ApplicationEntry> = Vec::new();
    let mut i: usize = 0;
    while i < listings.len()
        invariant
            0 <= i <= listings.len(),
            ls == listing_views(listings@),
            ls.len() == listings@.len(),
            entry_views(acc@) == roots_entries(*v, ls.take(i as int)),
        decreases listings.len() - i,
    {
        proof {
            assert(ls.take(i + 1).drop_last() =~= ls.take(i as int));
            assert(ls.take(i + 1).last() == ls[i as int]);
            assert(ls[i as int] == child_views(listings@[i as int]@));
        }
        collect_listing(v, &listings[i], &mut acc);
        i = i + 1;
    }
    proof {
        assert(ls.take(listings@.len() as int) =~= ls);
    }
    sort_entries(acc)
}

} // verus!
