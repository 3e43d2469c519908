use vimdir::error::Error;
use vimdir::listing::{Found, Listing};
use vimdir::snapshot::{insert_ascending, Entry, Snapshot};

fn found(path: &str, name: &str) -> Found {
    Found { path: String::from(path), name: Some(String::from(name)) }
}

fn nameless(path: &str) -> Found {
    Found { path: String::from(path), name: None }
}

fn listing(parent: &str, names: &[&str]) -> Listing {
    Listing {
        parent: String::from(parent),
        found: names.iter().map(|name| found(&format!("{}/{}", parent, name), name)).collect(),
    }
}

fn names_of(snapshot: &Snapshot) -> Vec<String> {
    (0..snapshot.len()).map(|i| snapshot.name(i).clone()).collect()
}

#[test]
fn a_snapshot_holds_the_names_in_ascending_order() {
    let snapshot = Snapshot::from_listing(listing("/p", &["c", "a", "b"])).unwrap();
    assert_eq!(snapshot.len(), 3);
    assert_eq!(names_of(&snapshot), vec!["a", "b", "c"]);
    assert_eq!(snapshot.parent(), "/p");
}

#[test]
fn a_snapshot_holds_each_name_once() {
    let snapshot = Snapshot::from_listing(listing("/p", &["b", "a", "b", "a", "b"])).unwrap();
    assert_eq!(names_of(&snapshot), vec!["a", "b"]);
}

#[test]
fn the_order_is_that_of_the_characters() {
    let snapshot =
        Snapshot::from_listing(listing("/p", &["b", "B", "a10", "a2", "a", "é", "~", "Z"])).unwrap();
    let mut expected: Vec<String> =
        ["b", "B", "a10", "a2", "a", "é", "~", "Z"].iter().map(|s| s.to_string()).collect();
    expected.sort();
    assert_eq!(names_of(&snapshot), expected);
    assert_eq!(names_of(&snapshot), vec!["B", "Z", "a", "a10", "a2", "b", "~", "é"]);
}

#[test]
fn the_paths_are_the_names_inside_the_directory() {
    let snapshot = Snapshot::from_listing(listing("/p", &["b", "a"])).unwrap();
    assert_eq!(snapshot.path(0), "/p/a");
    assert_eq!(snapshot.path(1), "/p/b");
    assert_eq!(snapshot.paths(), vec!["/p/a", "/p/b"]);
}

#[test]
fn the_paths_of_entries_without_directory_are_their_names() {
    let given = Listing { parent: String::new(), found: vec![found("x", "x")] };
    let snapshot = Snapshot::from_listing(given).unwrap();
    assert_eq!(snapshot.paths(), vec!["x"]);
}

#[test]
fn a_directory_that_is_not_the_parent_of_its_entries_gives_no_snapshot() {
    let given = Listing { parent: String::from("d/"), found: vec![found("d/x", "x")] };
    assert_eq!(
        Snapshot::from_listing(given).unwrap_err(),
        Error::DirectoryNotUnique { expected: String::from("d/"), found: String::from("d") }
    );
}

#[test]
fn an_empty_listing_gives_no_snapshot() {
    let result = Snapshot::from_listing(Listing { parent: String::from("/p"), found: Vec::new() });
    assert_eq!(result.unwrap_err(), Error::EmptyEntrySet);
}

#[test]
fn an_entry_without_file_name_gives_no_snapshot() {
    let given = Listing {
        parent: String::from("/p"),
        found: vec![found("/p/a", "a"), nameless("/p/.."), nameless("/p/x/..")],
    };
    assert_eq!(Snapshot::from_listing(given).unwrap_err(), Error::NoFileName(String::from("/p/..")));
}

#[test]
fn the_text_lists_index_and_name() {
    let snapshot = Snapshot::from_listing(listing("/p", &["b.txt", "a.txt"])).unwrap();
    assert_eq!(snapshot.create_instructions(), "0\ta.txt\n1\tb.txt\n");
}

#[test]
fn the_text_counts_in_decimal() {
    let names: Vec<String> = (0..12).map(|i| format!("f{:02}", i)).collect();
    let refs: Vec<&str> = names.iter().map(|s| s.as_str()).collect();
    let snapshot = Snapshot::from_listing(listing("/p", &refs)).unwrap();
    let text = snapshot.create_instructions();
    let lines: Vec<&str> = text.lines().collect();
    assert_eq!(lines.len(), 12);
    assert_eq!(lines[0], "0\tf00");
    assert_eq!(lines[9], "9\tf09");
    assert_eq!(lines[10], "10\tf10");
    assert_eq!(lines[11], "11\tf11");
}

fn entry(name: &str) -> Entry {
    Entry { name: String::from(name), path: format!("/p/{}", name) }
}

fn names_in(entries: &Vec<Entry>) -> Vec<String> {
    entries.iter().map(|entry| entry.name.clone()).collect()
}

#[test]
fn insert_ascending_puts_an_entry_at_its_place() {
    let mut entries: Vec<Entry> = Vec::new();
    insert_ascending(&mut entries, entry("m"));
    assert_eq!(entries, vec![entry("m")]);
    insert_ascending(&mut entries, entry("a"));
    assert_eq!(names_in(&entries), vec!["a", "m"]);
    insert_ascending(&mut entries, entry("z"));
    assert_eq!(names_in(&entries), vec!["a", "m", "z"]);
    insert_ascending(&mut entries, entry("n"));
    assert_eq!(entries, vec![entry("a"), entry("m"), entry("n"), entry("z")]);
}

#[test]
fn insert_ascending_leaves_out_what_is_there() {
    let mut entries = vec![entry("a"), entry("m"), entry("z")];
    insert_ascending(&mut entries, entry("m"));
    insert_ascending(&mut entries, entry("a"));
    insert_ascending(&mut entries, entry("z"));
    assert_eq!(names_in(&entries), vec!["a", "m", "z"]);
}

#[test]
fn insert_ascending_goes_by_the_path() {
    let mut entries = vec![entry("b")];
    insert_ascending(&mut entries, Entry { name: String::from("other"), path: String::from("/p/b") });
    assert_eq!(entries, vec![entry("b")]);
    insert_ascending(&mut entries, Entry { name: String::from("z"), path: String::from("/p/a") });
    assert_eq!(names_in(&entries), vec!["z", "b"]);
}

#[test]
fn a_name_that_leads_out_of_the_directory_gives_no_snapshot() {
    let given = Listing {
        parent: String::from("/p"),
        found: vec![found("/p/a", "a"), found("/p/s/b", "s/b")],
    };
    assert_eq!(
        Snapshot::from_listing(given).unwrap_err(),
        Error::DirectoryNotUnique { expected: String::from("/p"), found: String::from("/p/s") }
    );
    let given = Listing { parent: String::from("/p"), found: vec![found("/q/a", "/q/a")] };
    assert_eq!(
        Snapshot::from_listing(given).unwrap_err(),
        Error::DirectoryNotUnique { expected: String::from("/p"), found: String::from("/q") }
    );
    let given = Listing { parent: String::from("/p"), found: vec![found("/", "/")] };
    assert_eq!(Snapshot::from_listing(given).unwrap_err(), Error::NoParent(String::from("/")));
}

#[test]
fn names_that_mean_one_path_are_one_entry() {
    let given = Listing {
        parent: String::from("/p"),
        found: vec![found("/p/a", "a"), found("/p/a/", "a/")],
    };
    let snapshot = Snapshot::from_listing(given).unwrap();
    assert_eq!(snapshot.len(), 1);
    assert_eq!(snapshot.path(0), "/p/a");
    assert_eq!(snapshot.name(0), "a");
}
