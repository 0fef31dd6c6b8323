use app_scan::entry::{ApplicationEntry, DirChild};
use app_scan::roots::{bundle_roots, start_menu_roots};
use app_scan::sort::sort_entries;
use app_scan::walk::DirectoryWalk;

fn wchild(path: &str, is_dir: bool) -> DirChild {
    DirChild { path: path.to_string(), is_dir }
}

#[test]
fn deeply_nested_shortcut_is_found() {
    let mut walk = DirectoryWalk::new(vec!["C:\\StartMenu".to_string()]);
    let d1 = walk.next_dir().unwrap();
    assert_eq!(d1, "C:\\StartMenu");
    walk.feed(&vec![wchild("C:\\StartMenu\\Games", true)]);
    let d2 = walk.next_dir().unwrap();
    assert_eq!(d2, "C:\\StartMenu\\Games");
    walk.feed(&vec![wchild("C:\\StartMenu\\Games\\Classics", true)]);
    let d3 = walk.next_dir().unwrap();
    assert_eq!(d3, "C:\\StartMenu\\Games\\Classics");
    walk.feed(&vec![wchild("C:\\StartMenu\\Games\\Classics\\Doom.lnk", false)]);
    assert!(walk.next_dir().is_none());
    let r = walk.finish();
    assert_eq!(r.len(), 1);
    assert_eq!(r[0].name, "Doom");
    assert_eq!(r[0].path, "C:\\StartMenu\\Games\\Classics\\Doom.lnk");
}

#[test]
fn roots_pop_in_given_order() {
    let mut walk = DirectoryWalk::new(vec!["C:\\A".to_string(), "C:\\B".to_string()]);
    assert_eq!(walk.next_dir().unwrap(), "C:\\A");
    assert_eq!(walk.next_dir().unwrap(), "C:\\B");
    assert!(walk.next_dir().is_none());
}

#[test]
fn unreadable_directory_contributes_nothing() {
    // An unreadable directory reads as an empty listing; the walk goes on
    // and the result is simply empty.
    let mut walk = DirectoryWalk::new(vec!["C:\\Gone".to_string()]);
    let _ = walk.next_dir().unwrap();
    walk.feed(&Vec::new());
    assert!(walk.next_dir().is_none());
    let r = walk.finish();
    assert_eq!(r.len(), 0);
}

#[test]
fn walk_results_are_sorted() {
    let mut walk = DirectoryWalk::new(vec!["C:\\SM".to_string()]);
    let _ = walk.next_dir().unwrap();
    walk.feed(&vec![
        wchild("C:\\SM\\zebra.lnk", false),
        wchild("C:\\SM\\Alpha.lnk", false),
        wchild("C:\\SM\\mango.lnk", false),
    ]);
    let _ = walk.next_dir();
    let r = walk.finish();
    assert_eq!(r.len(), 3);
    assert_eq!(r[0].name, "Alpha");
    assert_eq!(r[1].name, "mango");
    assert_eq!(r[2].name, "zebra");
}

#[test]
fn both_start_menu_roots() {
    let r = start_menu_roots(
        Some("C:\\ProgramData".to_string()),
        Some("C:\\Users\\me\\AppData\\Roaming".to_string()),
    );
    assert_eq!(r.len(), 2);
    assert_eq!(r[0], "C:\\ProgramData\\Microsoft\\Windows\\Start Menu\\Programs");
    assert_eq!(
        r[1],
        "C:\\Users\\me\\AppData\\Roaming\\Microsoft\\Windows\\Start Menu\\Programs"
    );
}

#[test]
fn unset_machine_root_is_skipped() {
    let r = start_menu_roots(None, Some("C:\\Users\\me\\AppData\\Roaming".to_string()));
    assert_eq!(r.len(), 1);
    assert_eq!(
        r[0],
        "C:\\Users\\me\\AppData\\Roaming\\Microsoft\\Windows\\Start Menu\\Programs"
    );
}

#[test]
fn no_roots_when_nothing_is_set() {
    let r = start_menu_roots(None, None);
    assert_eq!(r.len(), 0);
}

#[test]
fn bundle_roots_are_fixed() {
    let r = bundle_roots();
    assert_eq!(r.len(), 3);
    assert_eq!(r[0], "/Applications");
    assert_eq!(r[1], "/System/Applications");
    assert_eq!(r[2], "/System/Applications/Utilities");
}

#[test]
fn sort_is_stable_for_equal_names() {
    let mk = |name: &str, path: &str| ApplicationEntry {
        name: name.to_string(),
        path: path.to_string(),
    };
    let v = vec![
        mk("notes", "/a/notes.app"),
        mk("Calc", "/a/Calc.app"),
        mk("Notes", "/b/Notes.app"),
        mk("notes", "/c/notes.app"),
    ];
    let r = sort_entries(v);
    assert_eq!(r.len(), 4);
    assert_eq!(r[0].name, "Calc");
    assert_eq!(r[1].path, "/a/notes.app");
    assert_eq!(r[2].path, "/b/Notes.app");
    assert_eq!(r[3].path, "/c/notes.app");
}

#[test]
fn mixed_feed_collects_files_and_queues_dirs() {
    let mut walk = DirectoryWalk::new(vec!["C:\\SM".to_string()]);
    let _ = walk.next_dir().unwrap();
    walk.feed(&vec![
        wchild("C:\\SM\\Tools", true),
        wchild("C:\\SM\\Paint.lnk", false),
        wchild("C:\\SM\\readme.txt", false),
        wchild("C:\\SM\\Games", true),
    ]);
    // pending directories hand out newest first
    assert_eq!(walk.next_dir().unwrap(), "C:\\SM\\Games");
    walk.feed(&Vec::new());
    assert_eq!(walk.next_dir().unwrap(), "C:\\SM\\Tools");
    walk.feed(&Vec::new());
    assert!(walk.next_dir().is_none());
    let r = walk.finish();
    assert_eq!(r.len(), 1);
    assert_eq!(r[0].name, "Paint");
}
