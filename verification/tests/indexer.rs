use dirindex::entry::{Entry, File, Kind};
use dirindex::scanner::{Child, Scanner, SCAN_CEILING};
use dirindex::table::{classify_store_outcome, StoreDecision, StoreOutcome, Table};

fn child(path: &str, name: &str, kind: Kind) -> Child {
    Child { path: path.to_string(), name: name.to_string(), kind }
}

/// The listings of a small fixed tree:
/// /r contains a (file) and b (dir); /r/b contains c (file).
fn listing_for(path: &str) -> Vec<Child> {
    if path == "/r" {
        vec![child("/r/a", "a", Kind::File), child("/r/b", "b", Kind::Dir)]
    } else if path == "/r/b" {
        vec![child("/r/b/c", "c", Kind::File)]
    } else {
        vec![]
    }
}

fn scan_fixed_tree(s: &mut Scanner) {
    while let Some(dir) = s.next_dir() {
        let children = listing_for(dir.as_str());
        s.record_listing(&dir, children);
    }
}

fn rows(s: &Scanner) -> Vec<(String, String, String, Kind)> {
    let mut out = Vec::new();
    let n = s.table.len();
    let mut i = 0;
    while i < n {
        let e: &Entry = s.table.get(i);
        out.push((e.path.clone(), e.parent_path.clone(), e.name.clone(), e.kind));
        i += 1;
    }
    out
}

#[test]
fn root_entry_after_initialize() {
    let s = Scanner::initialize("/some/root".to_string());
    assert_eq!(s.table.len(), 1);
    let e = s.table.get(0);
    assert_eq!(e.path, "/some/root");
    assert_eq!(e.parent_path, "root");
    assert_eq!(e.name, "root");
    assert_eq!(e.kind, Kind::Dir);
    let root_rows = rows(&s)
        .into_iter()
        .filter(|r| r.1 == "root")
        .count();
    assert_eq!(root_rows, 1);
}

#[test]
fn scan_records_every_node_once() {
    let mut s = Scanner::initialize("/r".to_string());
    scan_fixed_tree(&mut s);
    let got = rows(&s);
    assert_eq!(got.len(), 4);
    for want in ["/r", "/r/a", "/r/b", "/r/b/c"] {
        assert_eq!(got.iter().filter(|r| r.0 == want).count(), 1);
    }
    assert!(!s.tripped);
    assert_eq!(s.budget.used, 3);
}

#[test]
fn children_carry_their_parent_path() {
    let mut s = Scanner::initialize("/r".to_string());
    scan_fixed_tree(&mut s);
    let got = rows(&s);
    for r in &got {
        if r.0 == "/r/a" || r.0 == "/r/b" {
            assert_eq!(r.1, "/r");
        }
        if r.0 == "/r/b/c" {
            assert_eq!(r.1, "/r/b");
        }
    }
}

#[test]
fn parent_rows_precede_child_rows() {
    let mut s = Scanner::initialize("/r".to_string());
    scan_fixed_tree(&mut s);
    let got = rows(&s);
    for (i, r) in got.iter().enumerate() {
        if r.1 != "root" {
            let parent_at = got
                .iter()
                .position(|p| p.0 == r.1 && p.3 == Kind::Dir)
                .expect("parent row must exist");
            assert!(parent_at < i);
        }
    }
}

#[test]
fn replaying_the_scan_changes_no_rows() {
    let mut s = Scanner::initialize("/r".to_string());
    scan_fixed_tree(&mut s);
    let first = rows(&s);
    // A second run against the unchanged tree re-attempts the same
    // inserts against the persisted rows: every one degrades to a no-op.
    s.record_listing(&"/r".to_string(), listing_for("/r"));
    s.record_listing(&"/r/b".to_string(), listing_for("/r/b"));
    let second = rows(&s);
    assert_eq!(first, second);
}

#[test]
fn ceiling_caps_the_run() {
    let mut s = Scanner::initialize("/big".to_string());
    let dir = s.next_dir().expect("root is pending");
    let mut children = Vec::new();
    for i in 0..(SCAN_CEILING + 5) {
        children.push(child(&format!("/big/{}", i), &format!("{}", i), Kind::File));
    }
    s.record_listing(&dir, children);
    assert!(s.tripped);
    assert_eq!(s.budget.used, SCAN_CEILING);
    // exactly the ceiling's worth of children, plus the root row
    assert_eq!(s.table.len(), (SCAN_CEILING as usize) + 1);
    // the rest of the traversal is abandoned
    assert_eq!(s.next_dir(), None);
}

#[test]
fn ceiling_trips_across_listings() {
    let mut s = Scanner::initialize("/big".to_string());
    let dir = s.next_dir().expect("root is pending");
    let mut first = Vec::new();
    for i in 0..3000 {
        first.push(child(&format!("/big/{}", i), &format!("{}", i), Kind::File));
    }
    first.push(child("/big/d", "d", Kind::Dir));
    s.record_listing(&dir, first);
    assert!(!s.tripped);
    assert_eq!(s.budget.used, 3001);

    let sub = s.next_dir().expect("subdirectory is pending");
    assert_eq!(sub, "/big/d");
    let mut second = Vec::new();
    for i in 0..3000 {
        second.push(child(&format!("/big/d/{}", i), &format!("{}", i), Kind::File));
    }
    s.record_listing(&sub, second);
    assert!(s.tripped);
    assert_eq!(s.budget.used, SCAN_CEILING);
    // the whole run records exactly the ceiling's worth, plus the root
    assert_eq!(s.table.len(), (SCAN_CEILING as usize) + 1);
    assert_eq!(s.next_dir(), None);
}

#[test]
fn run_below_ceiling_ends_untripped() {
    let mut s = Scanner::initialize("/big".to_string());
    let dir = s.next_dir().expect("root is pending");
    let mut children = Vec::new();
    for i in 0..10 {
        children.push(child(&format!("/big/{}", i), &format!("{}", i), Kind::File));
    }
    s.record_listing(&dir, children);
    assert!(!s.tripped);
    assert_eq!(s.budget.used, 10);
    assert_eq!(s.table.len(), 11);
}

#[test]
fn duplicate_insert_is_a_silent_noop() {
    let mut t = Table::new();
    let added = t.insert(Entry::new(
        "/x".to_string(),
        "root".to_string(),
        "root".to_string(),
        Kind::Dir,
    ));
    assert!(added);
    let added_again = t.insert(Entry::new(
        "/x".to_string(),
        "other".to_string(),
        "other".to_string(),
        Kind::File,
    ));
    assert!(!added_again);
    assert_eq!(t.len(), 1);
    // the first row won: nothing was updated
    assert_eq!(t.get(0).parent_path, "root");
    assert_eq!(t.get(0).kind, Kind::Dir);
}

#[test]
fn only_unknown_store_failures_are_fatal() {
    assert_eq!(
        classify_store_outcome(&StoreOutcome::Done),
        StoreDecision::Proceed
    );
    assert_eq!(
        classify_store_outcome(&StoreOutcome::DuplicatePath),
        StoreDecision::Proceed
    );
    assert_eq!(
        classify_store_outcome(&StoreOutcome::Failed),
        StoreDecision::Fatal
    );
}

#[test]
fn file_row_holds_its_fields() {
    let f = File::new(7, "a".to_string(), "/r/a".to_string());
    assert_eq!(f.id, 7);
    assert_eq!(f.name, "a");
    assert_eq!(f.path, "/r/a");
}

#[test]
fn descent_goes_depth_first() {
    let mut s = Scanner::initialize("/r".to_string());
    let dir = s.next_dir().expect("root is pending");
    assert_eq!(dir, "/r");
    s.record_listing(&dir, listing_for("/r"));
    // the subdirectory just recorded is now awaiting its listing
    let next = s.next_dir().expect("subdirectory is pending");
    assert_eq!(next, "/r/b");
    s.record_listing(&next, listing_for("/r/b"));
    assert_eq!(s.next_dir(), None);
}
