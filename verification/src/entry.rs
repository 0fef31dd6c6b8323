//! The data handed across the library boundary: one directory-listing child
//! as the caller saw it, and one discovered application entry.
use vstd::prelude::*;

verus! {

/// Mathematical value of an [`ApplicationEntry`]: both strings as character
/// sequences.
#[verifier::ext_equal]
pub ghost struct EntryModel {
    pub name: Seq<char>,
    pub path: Seq<char>,
}

/// Mathematical value of a [`DirChild`].
#[verifier::ext_equal]
pub ghost struct ChildModel {
    pub path: Seq<char>,
    pub is_dir: bool,
}

/// One discovered application: a display name (the file name with the
/// platform suffix stripped) and the absolute path it was found under.
#[derive(Debug)]
pub struct ApplicationEntry {
    pub name: String,
    pub path: String,
}

/// One direct child of a scanned directory, as reported by the caller:
/// its absolute path and whether it is a directory.
#[derive(Debug)]
pub struct DirChild {
    pub path: String,
    pub is_dir: bool,
}

impl View for ApplicationEntry {
    type V = EntryModel;

    open spec fn view(&self) -> EntryModel {
        EntryModel { name: self.name@, path: self.path@ }
    }
}

impl View for DirChild {
    type V = ChildModel;

    open spec fn view(&self) -> ChildModel {
        ChildModel { path: self.path@, is_dir: self.is_dir }
    }
}

impl PartialEq for ApplicationEntry {
    fn eq(&self, other: &Self) -> (r: bool) {
        self.name == other.name && self.path == other.path
    }
}

impl vstd::std_specs::cmp::PartialEqSpecImpl for ApplicationEntry {
    open spec fn obeys_eq_spec() -> bool {
        true
    }

    open spec fn eq_spec(&self, other: &Self) -> bool {
        self.name@ == other.name@ && self.path@ == other.path@
    }
}

/// View of a sequence of entries, element by element.
pub open spec fn entry_views(s: Seq<ApplicationEntry>) -> Seq<EntryModel> {
    s.map_values(|e: ApplicationEntry| e@)
}

/// View of a sequence of listing children, element by element.
pub open spec fn child_views(s: Seq<DirChild>) -> Seq<ChildModel> {
    s.map_values(|c: DirChild| c@)
}

/// View of a sequence of strings, element by element.
pub open spec fn string_views(s: Seq<String>) -> Seq<Seq<char>> {
    s.map_values(|x: String| x@)
}

pub broadcast proof fn lemma_entry_views_push(s: Seq<ApplicationEntry>, e: ApplicationEntry)
    ensures
        #[trigger] entry_views(s.push(e)) == entry_views(s).push(e@),
{
    assert(entry_views(s.push(e)) =~= entry_views(s).push(e@));
}

pub broadcast proof fn lemma_string_views_push(s: Seq<String>, x: String)
    ensures
        #[trigger] string_views(s.push(x)) == string_views(s).push(x@),
{
    assert(string_views(s.push(x)) =~= string_views(s).push(x@));
}

} // verus!
