use vimdir::error::Error;

#[test]
fn a_malformed_line_is_quoted() {
    assert_eq!(
        Error::MalformedInstructionLine(String::from("what is this")).message(),
        "bad line: what is this"
    );
}

#[test]
fn a_bad_index_is_quoted() {
    assert_eq!(Error::BadIndex(String::from("1x")).message(), "bad index: 1x");
    assert_eq!(Error::BadIndex(String::new()).message(), "bad index: ");
}

#[test]
fn an_index_out_of_range_is_written_in_decimal() {
    assert_eq!(Error::IndexOutOfRange(0).message(), "index out of range: 0");
    assert_eq!(Error::IndexOutOfRange(120).message(), "index out of range: 120");
    assert_eq!(
        Error::IndexOutOfRange(usize::MAX).message(),
        format!("index out of range: {}", usize::MAX)
    );
}

#[test]
fn directories_that_are_not_unique_are_both_named() {
    let error =
        Error::DirectoryNotUnique { expected: String::from("/a"), found: String::from("/b/c") };
    assert_eq!(error.message(), "directories not unique: /a and /b/c");
}

#[test]
fn a_path_that_does_not_exist_is_named() {
    assert_eq!(
        Error::PathDoesNotExist(String::from("/a/b")).message(),
        "path does not exist: /a/b"
    );
}

#[test]
fn an_empty_entry_set_has_its_message() {
    assert_eq!(Error::EmptyEntrySet.message(), "no files to edit");
}

#[test]
fn a_refused_deletion_names_the_directory() {
    assert_eq!(
        Error::RefusedNonRecursiveDelete(String::from("/a/d")).message(),
        "cowardly refusing to unlink, not in recursive mode: /a/d"
    );
}

#[test]
fn a_bad_file_type_has_its_message() {
    assert_eq!(Error::BadFileType.message(), "bad file type");
}

#[test]
fn a_path_without_parent_or_name_is_named() {
    assert_eq!(Error::NoParent(String::from("/")).message(), "no parent: /");
    assert_eq!(Error::NoFileName(String::from("/a/..")).message(), "no file name: /a/..");
}
