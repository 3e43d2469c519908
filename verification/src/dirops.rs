use crate::error::{Error, ErrorView};
use std::path::{Path, PathBuf};
use vstd::prelude::*;
use vstd::std_specs::iter::IteratorSpec;
use vstd::string::StringExecFns;

verus! {

/// The parent that `std::path::Path::parent` finds for the path written
/// `path`, where `/` separates the components: the path without its last
/// component, and nothing where the path is empty or ends in the root.
pub uninterp spec fn parent_of(path: Seq<char>) -> Option<Seq<char>>;

/// The file name that `std::path::Path::file_name` finds for the path written
/// `path`, where `/` separates the components: its last component, and
/// nothing where the path ends in `..` or has no component that is a name.
pub uninterp spec fn file_name_of(path: Seq<char>) -> Option<Seq<char>>;

/// The path written `path` as `std` writes it again from its components
/// (`std::path::Path::components`, collected into a `PathBuf`), where `/`
/// separates them: without repeated or trailing separators and without `.`
/// but at the start. Two texts have the same normal form where `std` takes
/// them for the same path.
pub uninterp spec fn normal_form(path: Seq<char>) -> Seq<char>;

/// Calls `std::path::Path::parent` on the path written `path` and hands back
/// as text what it found. Not proved: that this is `parent_of` of the text,
/// the name by which the contracts of this library speak of it.
#[verifier::external_body]
pub(crate) fn std_parent(path: &str) -> (found: Option<String>)
    ensures
        match found {
            Some(parent) => parent_of(path@) == Some(parent@),
            None => parent_of(path@) is None,
        },
{
    match Path::new(path).parent() {
        Some(parent) => Some(parent.to_string_lossy().into_owned()),
        None => None,
    }
}

/// Calls `std::path::Path::file_name` on the path written `path` and hands
/// back as text what it found. Not proved: that this is `file_name_of` of
/// the text.
#[verifier::external_body]
pub(crate) fn std_file_name(path: &str) -> (found: Option<String>)
    ensures
        match found {
            Some(name) => file_name_of(path@) == Some(name@),
            None => file_name_of(path@) is None,
        },
{
    match Path::new(path).file_name() {
        Some(name) => Some(name.to_string_lossy().into_owned()),
        None => None,
    }
}

/// Takes the path written `path` apart with `std::path::Path::components` and
/// collects the components into a `PathBuf`, whose text it hands back. Not
/// proved: that this is `normal_form` of the text.
#[verifier::external_body]
fn std_normal_form(path: &str) -> (normal: String)
    ensures
        normal@ == normal_form(path@),
{
    Path::new(path).components().collect::<PathBuf>().to_string_lossy().into_owned()
}

/// What `parent` returns for `path`, once the parent has been looked for and
/// `found` is what came of it.
pub open spec fn parent_result(path: Seq<char>, found: Option<Seq<char>>) -> Result<
    Seq<char>,
    ErrorView,
> {
    match found {
        Some(parent) => Ok(parent),
        None => Err(ErrorView::NoParent(path)),
    }
}

/// What `file_name` returns for `path`, once the name has been looked for and
/// `found` is what came of it.
pub open spec fn file_name_result(path: Seq<char>, found: Option<Seq<char>>) -> Result<
    Seq<char>,
    ErrorView,
> {
    match found {
        Some(name) => Ok(name),
        None => Err(ErrorView::NoFileName(path)),
    }
}

/// The texts inside a result.
pub open spec fn result_view(result: Result<String, Error>) -> Result<Seq<char>, ErrorView> {
    match result {
        Ok(text) => Ok(text@),
        Err(error) => Err(error@),
    }
}

/// The parent of `path` where one was found, and the error that says that it
/// has none where none was.
pub fn require_parent(path: &str, found: Option<String>) -> (parent: Result<String, Error>)
    ensures
        result_view(parent) == parent_result(
            path@,
            match found {
                Some(text) => Some(text@),
                None => None,
            },
        ),
{
    match found {
        Some(parent) => Ok(parent),
        None => Err(Error::NoParent(String::from_str(path))),
    }
}

/// The file name of `path` where one was found, and the error that says that
/// it has none where none was.
pub fn require_file_name(path: &str, found: Option<String>) -> (name: Result<String, Error>)
    ensures
        result_view(name) == file_name_result(
            path@,
            match found {
                Some(text) => Some(text@),
                None => None,
            },
        ),
{
    match found {
        Some(name) => Ok(name),
        None => Err(Error::NoFileName(String::from_str(path))),
    }
}

/// The parent directory of `path`, or the error that it has none.
pub fn parent(path: &str) -> (parent: Result<String, Error>)
    ensures
        result_view(parent) == parent_result(path@, parent_of(path@)),
{
    require_parent(path, std_parent(path))
}

/// The last component of `path`, or the error that it does not end in a name.
pub fn file_name(path: &str) -> (name: Result<String, Error>)
    ensures
        result_view(name) == file_name_result(path@, file_name_of(path@)),
{
    require_file_name(path, std_file_name(path))
}

/// Whether `path` counts as hidden. No path does.
pub fn is_hidden(path: &str) -> (hidden: bool)
    ensures
        !hidden,
{
    false
}

/// `name` taken relative to the directory `base`: `name` itself where it
/// starts at the root, else `base` and `name` with one separator between
/// them, which is left out where `base` is empty or ends in one.
pub open spec fn joined(base: Seq<char>, name: Seq<char>) -> Seq<char> {
    if name.len() > 0 && name[0] == '/' {
        name
    } else if base.len() == 0 || base.last() == '/' {
        base + name
    } else {
        base + seq!['/'] + name
    }
}

/// The path that `name` means inside the directory `base`, in its normal
/// form.
pub open spec fn resolved(base: Seq<char>, name: Seq<char>) -> Seq<char> {
    normal_form(joined(base, name))
}

/// The first character of `s`.
fn first_char(s: &str) -> (first: Option<char>)
    ensures
        first == if s@.len() > 0 {
            Some(s@[0])
        } else {
            None
        },
{
    let mut chars = s.chars();
    chars.next()
}

/// The last character of `s`.
fn last_char(s: &str) -> (last: Option<char>)
    ensures
        last == if s@.len() > 0 {
            Some(s@.last())
        } else {
            None
        },
{
    let mut last: Option<char> = None;
    let all = s.chars();
    for c in it: all
        invariant
            it.seq() == s@,
            last == if it.index() > 0 {
                Some(s@[it.index() - 1])
            } else {
                None
            },
    {
        last = Some(c);
    }
    last
}

/// Joins `name` onto the directory `base`.
pub fn join(base: &str, name: &str) -> (path: String)
    ensures
        path@ == joined(base@, name@),
{
    if first_char(name) == Some('/') {
        return String::from_str(name);
    }
    let mut path = String::from_str(base);
    match last_char(base) {
        Some(c) => {
            if c != '/' {
                proof {
                    reveal_strlit("/");
                    assert("/"@ =~= seq!['/']);
                }
                path.append("/");
            }
        },
        None => {},
    }
    path.append(name);
    path
}

/// The normal form of the path that `name` means inside the directory `base`.
pub fn resolve(base: &str, name: &str) -> (path: String)
    ensures
        path@ == resolved(base@, name@),
{
    let whole = join(base, name);
    std_normal_form(whole.as_str())
}

/// The normal form of `path`.
pub fn normalize(path: &str) -> (normal: String)
    ensures
        normal@ == normal_form(path@),
{
    std_normal_form(path)
}

/// What a path is found to be when it is looked at.
#[derive(Debug, Clone, Copy, PartialEq, Eq, Structural)]
pub enum FileKind {
    Directory,
    File,
    Other,
}

/// How an entry is removed.
#[derive(Debug, Clone, Copy, PartialEq, Eq, Structural)]
pub enum Removal {
    /// Remove the one file.
    File,
    /// Remove the directory and all that is in it.
    Tree,
}

/// How an entry is copied.
#[derive(Debug, Clone, Copy, PartialEq, Eq, Structural)]
pub enum Duplication {
    /// Copy the one file.
    File,
    /// Copy the directory and all that is in it.
    Tree,
}

/// How `path`, which is a `kind`, is to be removed: a file always can be, a
/// directory only where `recursive` allows it, and anything else not at all.
pub open spec fn removal_of(path: Seq<char>, kind: FileKind, recursive: bool) -> Result<
    Removal,
    ErrorView,
> {
    match kind {
        FileKind::File => Ok(Removal::File),
        FileKind::Directory => if recursive {
            Ok(Removal::Tree)
        } else {
            Err(ErrorView::RefusedNonRecursiveDelete(path))
        },
        FileKind::Other => Err(ErrorView::BadFileType),
    }
}

/// How something of the kind `kind` is to be copied.
pub open spec fn duplication_of(kind: FileKind) -> Result<Duplication, ErrorView> {
    match kind {
        FileKind::File => Ok(Duplication::File),
        FileKind::Directory => Ok(Duplication::Tree),
        FileKind::Other => Err(ErrorView::BadFileType),
    }
}

/// Decides how to delete `path`, which was found to be a `kind`.
pub fn removal(path: &str, kind: FileKind, recursive: bool) -> (decision: Result<Removal, Error>)
    ensures
        match decision {
            Ok(how) => removal_of(path@, kind, recursive) == Ok::<Removal, ErrorView>(how),
            Err(error) => removal_of(path@, kind, recursive) == Err::<Removal, ErrorView>(error@),
        },
{
    match kind {
        FileKind::File => Ok(Removal::File),
        FileKind::Directory => {
            if recursive {
                Ok(Removal::Tree)
            } else {
                Err(Error::RefusedNonRecursiveDelete(String::from_str(path)))
            }
        },
        FileKind::Other => Err(Error::BadFileType),
    }
}

/// Decides how to copy something that was found to be a `kind`.
pub fn duplication(kind: FileKind) -> (decision: Result<Duplication, Error>)
    ensures
        match decision {
            Ok(how) => duplication_of(kind) == Ok::<Duplication, ErrorView>(how),
            Err(error) => duplication_of(kind) == Err::<Duplication, ErrorView>(error@),
        },
{
    match kind {
        FileKind::File => Ok(Duplication::File),
        FileKind::Directory => Ok(Duplication::Tree),
        FileKind::Other => Err(Error::BadFileType),
    }
}

/// Whether moving or copying `from` to `to` has anything to do: not where
/// both are the same path.
pub fn changes_anything(from: &str, to: &str) -> (changes: bool)
    ensures
        changes == (from@ != to@),
{
    !same_text(from, to)
}

/// Whether two strings hold the same text.
pub fn same_text(a: &str, b: &str) -> (same: bool)
    ensures
        same == (a@ == b@),
{
    let mut xs = a.chars();
    let mut ys = b.chars();
    loop
        invariant
            (a@ == b@) == (xs.remaining() == ys.remaining()),
            xs.decrease() is Some,
        decreases xs.decrease()->0,
    {
        let ghost before_x = xs.remaining();
        let ghost before_y = ys.remaining();
        let x = xs.next();
        let y = ys.next();
        match (x, y) {
            (None, None) => {
                assert(before_x =~= before_y);
                return true;
            },
            (Some(c), Some(d)) => {
                if c != d {
                    return false;
                }
                assert(before_x =~= seq![c] + before_x.drop_first());
                assert(before_y =~= seq![d] + before_y.drop_first());
            },
            _ => {
                return false;
            },
        }
    }
}

} // verus!
