use std::collections::{BTreeMap, HashSet};
use std::path::PathBuf;
use vimdir::error::Error;
use vimdir::listing::Candidate;
use vimdir::plan::{Operation, Plan};
use vimdir::snapshot::Snapshot;
use vimdir::session::{
    choose_mode, get_files, instructions_from_lines, parse_instructions, reconcile, Mode, Source,
};

fn candidate(path: &str) -> Candidate {
    Candidate { path: String::from(path), exists: true, hidden: false }
}

fn list(paths: &[&str]) -> Source {
    Source::List { paths: paths.iter().map(|path| candidate(path)).collect() }
}

fn directory(dir: &str, names: &[&str]) -> Source {
    Source::Directory {
        dir: String::from(dir),
        children: names.iter().map(|name| candidate(&format!("{}/{}", dir, name))).collect(),
    }
}

fn snapshot_of(paths: &[&str]) -> Snapshot {
    get_files(&list(paths), false).unwrap()
}

fn delete(path: &str) -> Operation {
    Operation::Delete { path: String::from(path) }
}

fn mv(from: &str, to: &str) -> Operation {
    Operation::Move { from: String::from(from), to: String::from(to) }
}

fn copy(from: &str, to: &str) -> Operation {
    Operation::Copy { from: String::from(from), to: String::from(to) }
}

fn sorted(mut texts: Vec<String>) -> Vec<String> {
    texts.sort();
    texts
}

fn plan_for(paths: &[&str], text: &str) -> Result<Plan, Error> {
    let state = snapshot_of(paths);
    let instructions = parse_instructions(text, &state)?;
    reconcile(&state, &instructions)
}

#[test]
fn without_paths_the_working_directory_is_edited() {
    assert_eq!(choose_mode(0, false), Mode::WorkingDirectory);
    assert_eq!(choose_mode(0, true), Mode::WorkingDirectory);
}

#[test]
fn one_directory_is_edited_as_a_directory() {
    assert_eq!(choose_mode(1, true), Mode::Directory);
}

#[test]
fn other_paths_are_edited_as_a_list() {
    assert_eq!(choose_mode(1, false), Mode::List);
    assert_eq!(choose_mode(2, true), Mode::List);
    assert_eq!(choose_mode(2, false), Mode::List);
    assert_eq!(choose_mode(usize::MAX, true), Mode::List);
}

#[test]
fn the_snapshot_of_a_list_is_in_order() {
    let state = get_files(&list(&["/p/c", "/p/a", "/p/b"]), false).unwrap();
    assert_eq!(state.paths(), vec!["/p/a", "/p/b", "/p/c"]);
    assert_eq!(state.parent(), "/p");
}

#[test]
fn the_snapshot_of_a_directory_is_in_order() {
    let state = get_files(&directory("/d", &["z", "m", "a"]), false).unwrap();
    assert_eq!(state.paths(), vec!["/d/a", "/d/m", "/d/z"]);
    assert_eq!(state.create_instructions(), "0\ta\n1\tm\n2\tz\n");
}

#[test]
fn a_path_given_twice_is_one_entry() {
    let state = get_files(&list(&["/p/a", "/p/b", "/p/a", "/p/a/"]), false).unwrap();
    assert_eq!(state.paths(), vec!["/p/a", "/p/b"]);
}

#[test]
fn an_empty_list_cannot_be_edited() {
    assert_eq!(get_files(&list(&[]), false).unwrap_err(), Error::EmptyEntrySet);
}

#[test]
fn an_empty_directory_cannot_be_edited() {
    assert_eq!(get_files(&directory("/d", &[]), false).unwrap_err(), Error::EmptyEntrySet);
}

#[test]
fn a_directory_of_hidden_entries_only_cannot_be_edited() {
    let source = Source::Directory {
        dir: String::from("/d"),
        children: vec![Candidate { path: String::from("/d/.a"), exists: true, hidden: true }],
    };
    assert_eq!(get_files(&source, true).unwrap_err(), Error::EmptyEntrySet);
    assert_eq!(get_files(&source, false).unwrap().paths(), vec!["/d/.a"]);
}

#[test]
fn paths_from_two_directories_cannot_be_edited() {
    assert_eq!(
        get_files(&list(&["/a/x", "/b/y"]), false).unwrap_err(),
        Error::DirectoryNotUnique { expected: String::from("/a"), found: String::from("/b") }
    );
}

#[test]
fn a_path_that_does_not_exist_cannot_be_edited() {
    let source = Source::List {
        paths: vec![
            candidate("/p/a"),
            Candidate { path: String::from("/p/gone"), exists: false, hidden: false },
        ],
    };
    assert_eq!(
        get_files(&source, false).unwrap_err(),
        Error::PathDoesNotExist(String::from("/p/gone"))
    );
}

#[test]
fn a_path_without_file_name_cannot_be_edited() {
    assert_eq!(
        get_files(&list(&["/p/a", "/p/.."]), false).unwrap_err(),
        Error::NoFileName(String::from("/p/.."))
    );
}

#[test]
fn names_are_read_inside_the_directory_of_the_snapshot() {
    let state = snapshot_of(&["/p/a", "/p/b"]);
    let instructions = parse_instructions("0\tx\n1\ty\n", &state).unwrap();
    assert_eq!(instructions.targets(0), vec!["/p/x"]);
    assert_eq!(instructions.targets(1), vec!["/p/y"]);
    assert!(instructions.targets(2).is_empty());
}

#[test]
fn a_name_may_be_a_path() {
    let state = snapshot_of(&["/p/a", "/p/b"]);
    let instructions = parse_instructions("0\tsub/x\n1\t/else/y\n", &state).unwrap();
    assert_eq!(instructions.targets(0), vec!["/p/sub/x"]);
    assert_eq!(instructions.targets(1), vec!["/else/y"]);
}

#[test]
fn an_index_may_be_repeated_or_left_out() {
    let state = snapshot_of(&["/p/a", "/p/b", "/p/c"]);
    let instructions = parse_instructions("2\tx\n0\ty\n2\tz\n2\tx\n", &state).unwrap();
    assert_eq!(instructions.targets(0), vec!["/p/y"]);
    assert!(instructions.targets(1).is_empty());
    assert_eq!(sorted(instructions.targets(2)), vec!["/p/x", "/p/z"]);
}

#[test]
fn names_that_mean_the_same_path_are_one_target() {
    let state = snapshot_of(&["/p/a"]);
    let instructions = parse_instructions("0\tx\n0\tx/\n0\t./x\n0\t/p//x\n", &state).unwrap();
    assert_eq!(instructions.targets(0), vec!["/p/x"]);
}

#[test]
fn the_order_of_the_lines_does_not_matter() {
    let state = snapshot_of(&["/p/a", "/p/b"]);
    let one = parse_instructions("0\tx\n1\ty\n0\tz\n", &state).unwrap();
    let other = parse_instructions("0\tz\n0\tx\n1\ty\n", &state).unwrap();
    for index in 0..3 {
        assert_eq!(sorted(one.targets(index)), sorted(other.targets(index)));
    }
}

#[test]
fn parsing_a_line_with_a_bad_index_fails() {
    let state = snapshot_of(&["/p/a"]);
    let error = parse_instructions("abc\tfile.txt", &state).unwrap_err();
    assert_eq!(error, Error::BadIndex(String::from("abc")));
    assert_eq!(error.message(), "bad index: abc");
}

#[test]
fn parsing_a_line_without_a_tab_fails() {
    let state = snapshot_of(&["/p/a"]);
    let error = parse_instructions("0 file.txt\n", &state).unwrap_err();
    assert_eq!(error, Error::MalformedInstructionLine(String::from("0 file.txt")));
    assert_eq!(error.message(), "bad line: 0 file.txt");
}

#[test]
fn parsing_a_line_with_three_parts_fails() {
    let state = snapshot_of(&["/d/a"]);
    let error = parse_instructions("0\ta\tb\n", &state).unwrap_err();
    assert_eq!(error, Error::MalformedInstructionLine(String::from("0\ta\tb")));
    assert_eq!(error.message(), "bad line: 0\ta\tb");
}

#[test]
fn an_empty_line_is_a_fault() {
    let state = snapshot_of(&["/p/a"]);
    assert_eq!(
        parse_instructions("0\ta\n\n", &state).unwrap_err(),
        Error::MalformedInstructionLine(String::new())
    );
}

#[test]
fn the_first_faulty_line_is_reported() {
    let state = snapshot_of(&["/p/a"]);
    assert_eq!(
        parse_instructions("0\ta\nx\tb\nno tab\n", &state).unwrap_err(),
        Error::BadIndex(String::from("x"))
    );
    assert_eq!(
        parse_instructions("0\ta\nno tab\nx\tb\n", &state).unwrap_err(),
        Error::MalformedInstructionLine(String::from("no tab"))
    );
}

#[test]
fn an_empty_text_asks_for_nothing() {
    let state = snapshot_of(&["/p/a"]);
    let instructions = parse_instructions("", &state).unwrap();
    assert!(instructions.targets(0).is_empty());
}

#[test]
fn parsing_does_not_look_at_the_range_of_an_index() {
    let state = snapshot_of(&["/p/a", "/p/b"]);
    let instructions = parse_instructions("7\tx\n", &state).unwrap();
    assert_eq!(instructions.targets(7), vec!["/p/x"]);
}

#[test]
fn lines_are_read_one_by_one() {
    let lines: Vec<Vec<char>> = vec!["1\tb".chars().collect(), "0\ta".chars().collect()];
    let instructions = instructions_from_lines(&lines, "/q").unwrap();
    assert_eq!(instructions.targets(0), vec!["/q/a"]);
    assert_eq!(instructions.targets(1), vec!["/q/b"]);
    let lines: Vec<Vec<char>> = vec!["1\tb".chars().collect(), "zero\ta".chars().collect()];
    assert_eq!(
        instructions_from_lines(&lines, "/q").unwrap_err(),
        Error::BadIndex(String::from("zero"))
    );
}

#[test]
fn an_index_that_the_snapshot_does_not_have_is_out_of_range() {
    let error = plan_for(&["/p/a", "/p/b"], "0\ta\n1\tb\n2\tc\n").unwrap_err();
    assert_eq!(error, Error::IndexOutOfRange(2));
    assert_eq!(error.message(), "index out of range: 2");
    assert_eq!(plan_for(&["/p/a"], "0\ta\n1000\tb\n").unwrap_err(), Error::IndexOutOfRange(1000));
}

#[test]
fn an_index_out_of_range_stops_everything() {
    assert_eq!(plan_for(&["/p/a", "/p/b"], "5\tx\n").unwrap_err(), Error::IndexOutOfRange(5));
}

#[test]
fn an_unedited_listing_changes_nothing() {
    for paths in [
        vec!["/p/a"],
        vec!["/p/b", "/p/a", "/p/c"],
        vec!["x", "y"],
        vec!["d/x y", "d/ü", "d/-", "d/+1"],
        vec!["./a", "./b"],
        vec!["dir1/", "dir2/"],
    ] {
        let state = snapshot_of(&paths);
        let text = state.create_instructions();
        let instructions = parse_instructions(&text, &state).unwrap();
        assert_eq!(
            reconcile(&state, &instructions),
            Ok(Plan { operations: Vec::new(), deleted: 0, copied: 0 })
        );
    }
}

#[test]
fn a_file_name_with_a_line_feed_does_not_read_back() {
    let state = snapshot_of(&["/p/a\nb"]);
    let text = state.create_instructions();
    assert_eq!(text, "0\ta\nb\n");
    assert_eq!(
        parse_instructions(&text, &state).unwrap_err(),
        Error::MalformedInstructionLine(String::from("b"))
    );
}

#[test]
fn a_file_name_with_a_tab_does_not_read_back() {
    let state = snapshot_of(&["/p/tab\there"]);
    let text = state.create_instructions();
    assert_eq!(text, "0\ttab\there\n");
    assert_eq!(
        parse_instructions(&text, &state).unwrap_err(),
        Error::MalformedInstructionLine(String::from("0\ttab\there"))
    );
}

#[test]
fn a_file_name_that_ends_in_a_carriage_return_is_read_without_it() {
    let state = snapshot_of(&["/p/x\r"]);
    let text = state.create_instructions();
    assert_eq!(text, "0\tx\r\n");
    let instructions = parse_instructions(&text, &state).unwrap();
    assert_eq!(instructions.targets(0), vec!["/p/x"]);
    assert_eq!(
        reconcile(&state, &instructions),
        Ok(Plan { operations: vec![mv("/p/x\r", "/p/x")], deleted: 0, copied: 0 })
    );
}

#[test]
fn a_line_that_was_removed_deletes_its_entry() {
    assert_eq!(
        plan_for(&["/p/a", "/p/b", "/p/c"], "0\ta\n2\tc\n"),
        Ok(Plan { operations: vec![delete("/p/b")], deleted: 1, copied: 0 })
    );
}

#[test]
fn an_empty_text_deletes_every_entry() {
    assert_eq!(
        plan_for(&["/p/a", "/p/b"], ""),
        Ok(Plan { operations: vec![delete("/p/a"), delete("/p/b")], deleted: 2, copied: 0 })
    );
}

#[test]
fn a_name_that_was_changed_moves_its_entry() {
    assert_eq!(
        plan_for(&["/p/a", "/p/b"], "0\ta\n1\trenamed\n"),
        Ok(Plan { operations: vec![mv("/p/b", "/p/renamed")], deleted: 0, copied: 0 })
    );
}

#[test]
fn a_line_given_several_new_names_copies_and_deletes_its_entry() {
    let plan = plan_for(&["/p/a", "/p/b"], "0\tx\n0\ty\n0\tz\n1\tb\n").unwrap();
    assert_eq!(plan.deleted, 0);
    assert_eq!(plan.copied, 3);
    assert_eq!(plan.operations.len(), 4);
    assert_eq!(plan.operations[3], delete("/p/a"));
    let mut copies: Vec<&Operation> = plan.operations[..3].iter().collect();
    copies.sort_by_key(|operation| format!("{:?}", operation));
    assert_eq!(copies, vec![&copy("/p/a", "/p/x"), &copy("/p/a", "/p/y"), &copy("/p/a", "/p/z")]);
}

#[test]
fn a_line_that_was_duplicated_copies_and_keeps_its_entry() {
    let plan = plan_for(&["/p/a", "/p/b"], "0\ta\n0\tcopy1\n0\tcopy2\n1\tb\n").unwrap();
    assert_eq!(plan.deleted, 0);
    assert_eq!(plan.copied, 2);
    let mut operations: Vec<Operation> = plan.operations;
    operations.sort_by_key(|operation| format!("{:?}", operation));
    assert_eq!(operations, vec![copy("/p/a", "/p/copy1"), copy("/p/a", "/p/copy2")]);
}

#[test]
fn a_name_written_with_a_slash_at_its_end_is_the_same_entry() {
    assert_eq!(
        plan_for(&["/p/dir"], "0\tdir/\n0\tbackup\n"),
        Ok(Plan { operations: vec![copy("/p/dir", "/p/backup")], deleted: 0, copied: 1 })
    );
    assert_eq!(
        plan_for(&["/p/dir"], "0\t./dir\n"),
        Ok(Plan { operations: Vec::new(), deleted: 0, copied: 0 })
    );
}

#[test]
fn entries_given_with_a_slash_at_their_end_stay() {
    assert_eq!(
        plan_for(&["dir1/", "dir2/"], "0\tdir1\n0\tcopy\n1\tdir2\n"),
        Ok(Plan { operations: vec![copy("dir1", "copy")], deleted: 0, copied: 1 })
    );
}

#[test]
fn deleting_comes_first() {
    assert_eq!(
        plan_for(&["/p/a", "/p/b", "/p/c"], "0\tb\n2\tc\n"),
        Ok(Plan { operations: vec![delete("/p/b"), mv("/p/a", "/p/b")], deleted: 1, copied: 0 })
    );
}

/// A path as `std` writes it from its components.
fn written(path: &PathBuf) -> String {
    path.components().collect::<PathBuf>().to_str().unwrap().to_string()
}

/// The changes that the text asks for, worked out on `std`'s paths, which
/// compare by their components, and on `std`'s hash sets. Each change is
/// written with the normal forms of its paths.
fn changes_with_std_paths(paths: &[&str], text: &str) -> (Vec<Operation>, Vec<Operation>) {
    let mut entries: Vec<PathBuf> = paths.iter().map(PathBuf::from).collect();
    entries.sort();
    entries.dedup();
    let parent = entries[0].parent().unwrap().to_path_buf();
    let mut asked: BTreeMap<usize, HashSet<PathBuf>> = BTreeMap::new();
    for line in text.lines() {
        let (index, name) = line.split_once('\t').unwrap();
        asked.entry(index.parse().unwrap()).or_default().insert(parent.join(name));
    }
    let mut deletions = Vec::new();
    for (index, entry) in entries.iter().enumerate() {
        if asked.get(&index).map_or(true, |targets| targets.is_empty()) {
            deletions.push(Operation::Delete { path: written(entry) });
        }
    }
    let mut others = Vec::new();
    for (index, targets) in asked.iter() {
        let entry = &entries[*index];
        if targets.len() == 1 {
            let target = targets.iter().next().unwrap();
            if target != entry {
                others.push(Operation::Move { from: written(entry), to: written(target) });
            }
        } else {
            for target in targets {
                if target != entry {
                    others.push(Operation::Copy { from: written(entry), to: written(target) });
                }
            }
            if !targets.contains(entry) {
                others.push(Operation::Delete { path: written(entry) });
            }
        }
    }
    others.sort_by_key(|operation| format!("{:?}", operation));
    (deletions, others)
}

#[test]
fn the_changes_are_those_that_std_paths_give() {
    let names = ["a", "b", "c", "a/", "./b", "sub/a", "/q/z", "d", "e e", "c/.", "x/../a"];
    let mut seed: u64 = 0x2545f4914f6cdd1d;
    let mut next = |limit: usize| -> usize {
        seed ^= seed << 13;
        seed ^= seed >> 7;
        seed ^= seed << 17;
        (seed % limit as u64) as usize
    };
    for _ in 0..300 {
        let paths = ["/p/a", "/p/b", "/p/c", "/p/d"];
        let mut text = String::new();
        for index in 0..paths.len() {
            for _ in 0..next(4) {
                text.push_str(&format!("{}\t{}\n", index, names[next(names.len())]));
            }
        }
        let plan = plan_for(&paths, &text).unwrap();
        let (deletions, others) = changes_with_std_paths(&paths, &text);
        assert_eq!(plan.deleted, deletions.len(), "for {:?}", text);
        assert_eq!(plan.operations[..plan.deleted], deletions[..], "for {:?}", text);
        let mut rest: Vec<Operation> = plan.operations.into_iter().skip(deletions.len()).collect();
        rest.sort_by_key(|operation| format!("{:?}", operation));
        assert_eq!(rest, others, "for {:?}", text);
        let copies = rest.iter().filter(|operation| matches!(operation, Operation::Copy { .. }));
        assert_eq!(plan.copied, copies.count(), "for {:?}", text);
    }
}

#[test]
fn the_snapshot_is_that_which_std_paths_give() {
    for given in [
        vec!["/p/b", "/p/a", "/p/c"],
        vec!["b/", "a", "./c"],
        vec!["d/x y", "d/x-y", "d/x/", "d/X", "d/x.txt", "d/xa"],
        vec!["./z", "./a/", ".//m"],
        vec!["/a", "/b/", "//c"],
    ] {
        let state = match get_files(&list(&given), false) {
            Ok(state) => state,
            Err(error) => {
                let mut parents: Vec<Option<PathBuf>> = given
                    .iter()
                    .map(|path| PathBuf::from(path).parent().map(|p| p.to_path_buf()))
                    .collect();
                parents.dedup();
                assert!(parents.len() > 1, "{:?} gave {:?}", given, error);
                continue;
            },
        };
        let mut expected: Vec<PathBuf> = given.iter().map(PathBuf::from).collect();
        expected.sort();
        expected.dedup();
        let found: Vec<PathBuf> = state.paths().iter().map(PathBuf::from).collect();
        assert_eq!(found, expected, "for {:?}", given);
    }
}
