//! The scan roots of the two platform families.
//!
//! Bundle platforms use a fixed list of well-known directories. Shortcut
//! platforms derive two start-menu roots from environment values the caller
//! read: a machine-wide one and a per-user one; a value that is not set
//! contributes no root at all.
use vstd::prelude::*;
use vstd::string::StringExecFns;

use crate::entry::string_views;

verus! {

/// The fixed path from an environment base to its start-menu programs
/// directory.
pub open spec fn start_menu_tail() -> Seq<char> {
    "\\Microsoft\\Windows\\Start Menu\\Programs"@
}

/// The start-menu root under the base directory `base`.
pub open spec fn start_menu_root_of(base: Seq<char>) -> Seq<char> {
    base + start_menu_tail()
}

/// View of an optional environment value.
pub open spec fn env_view(o: Option<String>) -> Option<Seq<char>> {
    match o {
        Some(s) => Some(s@),
        None => None,
    }
}

/// The start-menu roots for the given environment values: one root per
/// value that is set, machine-wide first, each the value with the fixed
/// start-menu path appended. An unset value is skipped silently.
pub open spec fn start_menu_roots_model(m: Option<Seq<char>>, u: Option<Seq<char>>) -> Seq<
    Seq<char>,
> {
    (match m {
        Some(b) => seq![start_menu_root_of(b)],
        None => Seq::empty(),
    }) + (match u {
        Some(b) => seq![start_menu_root_of(b)],
        None => Seq::empty(),
    })
}

/// The fixed bundle-platform roots, in scan order.
pub open spec fn bundle_roots_model() -> Seq<Seq<char>> {
    seq!["/Applications"@, "/System/Applications"@, "/System/Applications/Utilities"@]
}

/// The start-menu tail, as an executable value.
pub fn start_menu_tail_str() -> (r: &'static str)
    ensures
        r@ == start_menu_tail(),
{
    "\\Microsoft\\Windows\\Start Menu\\Programs"
}

/// Builds the start-menu roots from the environment values the caller
/// read: a root for each value that is set, machine-wide before per-user,
/// and no root for a value that is not.
pub fn start_menu_roots(machine: Option<String>, user: Option<String>) -> (r: Vec<String>)
    ensures
        string_views(r@) == start_menu_roots_model(env_view(machine), env_view(user)),
{
    let ghost m = env_view(machine);
    let ghost u = env_view(user);
    let mut r: Vec<String> = Vec::new();
    if let Some(b) = machine {
        r.push(b.concat(start_menu_tail_str()));
    }
    if let Some(b) = user {
        r.push(b.concat(start_menu_tail_str()));
    }
    proof {
        assert(string_views(r@) =~= start_menu_roots_model(m, u));
    }
    r
}

/// The fixed roots a bundle-platform scan inspects.
pub fn bundle_roots() -> (r: Vec<String>)
    ensures
        string_views(r@) == bundle_roots_model(),
{
    let mut r: Vec<String> = Vec::new();
    r.push("/Applications".to_owned());
    r.push("/System/Applications".to_owned());
    r.push("/System/Applications/Utilities".to_owned());
    proof {
        assert(string_views(r@) =~= bundle_roots_model());
    }
    r
}

} // verus!
