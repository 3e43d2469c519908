use vimdir::plan::{
    copies_from, count_copies, deletes_from, has_text, plan_operations, step_for, Operation, Plan,
};

fn texts(items: &[&str]) -> Vec<String> {
    items.iter().map(|item| item.to_string()).collect()
}

fn delete(path: &str) -> Operation {
    Operation::Delete { path: String::from(path) }
}

fn mv(from: &str, to: &str) -> Operation {
    Operation::Move { from: String::from(from), to: String::from(to) }
}

fn copy(from: &str, to: &str) -> Operation {
    Operation::Copy { from: String::from(from), to: String::from(to) }
}

#[test]
fn has_text_looks_through_the_list() {
    let list = texts(&["a", "b", "c"]);
    assert!(has_text(&list, &String::from("a")));
    assert!(has_text(&list, &String::from("c")));
    assert!(!has_text(&list, &String::from("d")));
    assert!(!has_text(&Vec::new(), &String::from("a")));
}

#[test]
fn an_entry_without_target_has_no_step() {
    assert_eq!(step_for(&String::from("/p/a"), &Vec::new()), Vec::new());
}

#[test]
fn an_entry_with_one_other_target_is_moved() {
    assert_eq!(step_for(&String::from("/p/a"), &texts(&["/p/b"])), vec![mv("/p/a", "/p/b")]);
}

#[test]
fn an_entry_with_itself_as_target_is_left() {
    assert_eq!(step_for(&String::from("/p/a"), &texts(&["/p/a"])), Vec::new());
}

#[test]
fn an_entry_with_other_targets_is_copied_and_deleted() {
    assert_eq!(
        step_for(&String::from("/p/a"), &texts(&["/p/b", "/p/c", "/p/d"])),
        vec![copy("/p/a", "/p/b"), copy("/p/a", "/p/c"), copy("/p/a", "/p/d"), delete("/p/a")]
    );
}

#[test]
fn an_entry_among_its_targets_is_copied_and_kept() {
    assert_eq!(
        step_for(&String::from("/p/a"), &texts(&["/p/b", "/p/a", "/p/c"])),
        vec![copy("/p/a", "/p/b"), copy("/p/a", "/p/c")]
    );
    assert_eq!(
        step_for(&String::from("/p/a"), &texts(&["/p/a", "/p/b"])),
        vec![copy("/p/a", "/p/b")]
    );
}

#[test]
fn entries_without_target_are_deleted() {
    let paths = texts(&["/p/a", "/p/b", "/p/c"]);
    let targets = vec![Vec::new(), texts(&["/p/b"]), Vec::new()];
    assert_eq!(deletes_from(&paths, &targets), vec![delete("/p/a"), delete("/p/c")]);
}

#[test]
fn entries_with_targets_are_moved_or_copied() {
    let paths = texts(&["/p/a", "/p/b", "/p/c"]);
    let targets = vec![Vec::new(), texts(&["/p/x"]), texts(&["/p/c", "/p/y"])];
    assert_eq!(copies_from(&paths, &targets), vec![mv("/p/b", "/p/x"), copy("/p/c", "/p/y")]);
}

#[test]
fn copies_are_counted() {
    let operations =
        vec![delete("a"), copy("b", "c"), mv("d", "e"), copy("b", "f"), delete("b"), copy("g", "h")];
    assert_eq!(count_copies(&operations), 3);
    assert_eq!(count_copies(&Vec::new()), 0);
    assert_eq!(count_copies(&vec![mv("a", "b"), delete("c")]), 0);
}

#[test]
fn nothing_is_done_where_every_entry_stays() {
    let paths = texts(&["/p/a", "/p/b", "/p/c"]);
    let targets = vec![texts(&["/p/a"]), texts(&["/p/b"]), texts(&["/p/c"])];
    assert_eq!(
        plan_operations(&paths, &targets),
        Plan { operations: Vec::new(), deleted: 0, copied: 0 }
    );
}

#[test]
fn an_entry_that_nothing_names_is_deleted() {
    let paths = texts(&["/p/a", "/p/b"]);
    let targets = vec![texts(&["/p/a"]), Vec::new()];
    assert_eq!(
        plan_operations(&paths, &targets),
        Plan { operations: vec![delete("/p/b")], deleted: 1, copied: 0 }
    );
}

#[test]
fn an_entry_with_a_new_name_is_moved() {
    let paths = texts(&["/p/a", "/p/b"]);
    let targets = vec![texts(&["/p/a"]), texts(&["/p/new"])];
    assert_eq!(
        plan_operations(&paths, &targets),
        Plan { operations: vec![mv("/p/b", "/p/new")], deleted: 0, copied: 0 }
    );
}

#[test]
fn an_entry_with_several_new_names_is_copied_and_deleted() {
    let paths = texts(&["/p/a", "/p/b"]);
    let targets = vec![texts(&["/p/x", "/p/y", "/p/z"]), texts(&["/p/b"])];
    assert_eq!(
        plan_operations(&paths, &targets),
        Plan {
            operations: vec![
                copy("/p/a", "/p/x"),
                copy("/p/a", "/p/y"),
                copy("/p/a", "/p/z"),
                delete("/p/a"),
            ],
            deleted: 0,
            copied: 3,
        }
    );
}

#[test]
fn an_entry_with_its_own_and_other_names_is_copied_and_stays() {
    let paths = texts(&["/p/a", "/p/b"]);
    let targets = vec![texts(&["/p/a", "/p/x", "/p/y"]), texts(&["/p/b"])];
    assert_eq!(
        plan_operations(&paths, &targets),
        Plan {
            operations: vec![copy("/p/a", "/p/x"), copy("/p/a", "/p/y")],
            deleted: 0,
            copied: 2,
        }
    );
}

#[test]
fn deletions_come_before_moves_and_copies() {
    let paths = texts(&["/p/a", "/p/b", "/p/c", "/p/d"]);
    let targets =
        vec![texts(&["/p/a2"]), Vec::new(), texts(&["/p/c", "/p/c2"]), Vec::new()];
    assert_eq!(
        plan_operations(&paths, &targets),
        Plan {
            operations: vec![
                delete("/p/b"),
                delete("/p/d"),
                mv("/p/a", "/p/a2"),
                copy("/p/c", "/p/c2"),
            ],
            deleted: 2,
            copied: 1,
        }
    );
}

#[test]
fn everything_is_deleted_where_nothing_is_named() {
    let paths = texts(&["/p/a", "/p/b"]);
    let targets = vec![Vec::new(), Vec::new()];
    assert_eq!(
        plan_operations(&paths, &targets),
        Plan { operations: vec![delete("/p/a"), delete("/p/b")], deleted: 2, copied: 0 }
    );
}

#[test]
fn entries_that_trade_names_are_moved_in_order() {
    let paths = texts(&["/p/a", "/p/b"]);
    let targets = vec![texts(&["/p/b"]), texts(&["/p/a"])];
    assert_eq!(
        plan_operations(&paths, &targets),
        Plan { operations: vec![mv("/p/a", "/p/b"), mv("/p/b", "/p/a")], deleted: 0, copied: 0 }
    );
}

#[test]
fn no_entries_give_an_empty_plan() {
    assert_eq!(
        plan_operations(&Vec::new(), &Vec::new()),
        Plan { operations: Vec::new(), deleted: 0, copied: 0 }
    );
}
