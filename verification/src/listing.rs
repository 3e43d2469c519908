use crate::dirops::{
    file_name_of, normal_form, normalize, parent_of, same_text, std_file_name, std_parent,
};
use crate::error::{Error, ErrorView};
use vstd::prelude::*;
use vstd::string::StringExecFns;

verus! {

/// A path that is offered for editing, with what was found out about it.
#[derive(Debug, PartialEq, Eq)]
pub struct Candidate {
    /// The path as it was given.
    pub path: String,
    /// Whether something exists at the path.
    pub exists: bool,
    /// Whether the path counts as hidden.
    pub hidden: bool,
}

/// A candidate whose path has been taken apart.
#[derive(Debug, PartialEq, Eq)]
pub struct Located {
    /// The path as it was given.
    pub path: String,
    /// The directory in which the path lies, if it lies in one.
    pub parent: Option<String>,
    /// The file name in which the path ends, if it ends in one.
    pub name: Option<String>,
    /// Whether something exists at the path.
    pub exists: bool,
    /// Whether the path counts as hidden.
    pub hidden: bool,
}

/// An entry that was accepted for editing.
#[derive(Debug, PartialEq, Eq)]
pub struct Found {
    /// The path as it was given.
    pub path: String,
    /// The file name in which the path ends, if it ends in one.
    pub name: Option<String>,
}

/// The entries of one directory that were accepted for editing, in the order
/// in which they were given.
#[derive(Debug, PartialEq, Eq)]
pub struct Listing {
    /// The directory in which all the entries lie.
    pub parent: String,
    /// The entries.
    pub found: Vec<Found>,
}

/// The text of a string that may be missing.
pub open spec fn optional_text(text: Option<String>) -> Option<Seq<char>> {
    match text {
        Some(text) => Some(text@),
        None => None,
    }
}

/// A [`Candidate`] with the text of its path.
pub struct CandidateView {
    pub path: Seq<char>,
    pub exists: bool,
    pub hidden: bool,
}

/// A [`Located`] with the texts of its strings.
pub struct LocatedView {
    pub path: Seq<char>,
    pub parent: Option<Seq<char>>,
    pub name: Option<Seq<char>>,
    pub exists: bool,
    pub hidden: bool,
}

/// A [`Found`] with the texts of its strings.
pub struct FoundView {
    pub path: Seq<char>,
    pub name: Option<Seq<char>>,
}

/// A [`Listing`] with the texts of its strings.
pub struct ListingView {
    pub parent: Seq<char>,
    pub found: Seq<FoundView>,
}

impl View for Candidate {
    type V = CandidateView;

    open spec fn view(&self) -> CandidateView {
        CandidateView { path: self.path@, exists: self.exists, hidden: self.hidden }
    }
}

impl View for Located {
    type V = LocatedView;

    open spec fn view(&self) -> LocatedView {
        LocatedView {
            path: self.path@,
            parent: optional_text(self.parent),
            name: optional_text(self.name),
            exists: self.exists,
            hidden: self.hidden,
        }
    }
}

impl View for Found {
    type V = FoundView;

    open spec fn view(&self) -> FoundView {
        FoundView { path: self.path@, name: optional_text(self.name) }
    }
}

impl View for Listing {
    type V = ListingView;

    open spec fn view(&self) -> ListingView {
        ListingView { parent: self.parent@, found: found_views(self.found@) }
    }
}

/// The views of a sequence of candidates.
pub open spec fn candidate_views(candidates: Seq<Candidate>) -> Seq<CandidateView> {
    candidates.map_values(|candidate: Candidate| candidate@)
}

/// The views of a sequence of located candidates.
pub open spec fn located_views(items: Seq<Located>) -> Seq<LocatedView> {
    items.map_values(|item: Located| item@)
}

/// The views of a sequence of accepted entries.
pub open spec fn found_views(found: Seq<Found>) -> Seq<FoundView> {
    found.map_values(|entry: Found| entry@)
}

/// `candidate` with its path taken apart: parent and file name are those of
/// the normal form of the path.
pub open spec fn located(candidate: CandidateView) -> LocatedView {
    LocatedView {
        path: candidate.path,
        parent: parent_of(normal_form(candidate.path)),
        name: file_name_of(normal_form(candidate.path)),
        exists: candidate.exists,
        hidden: candidate.hidden,
    }
}

/// What is wrong with a path that is said to exist or not, if anything.
pub open spec fn existence_fault(path: Seq<char>, exists: bool) -> Option<ErrorView> {
    if exists {
        None
    } else {
        Some(ErrorView::PathDoesNotExist(path))
    }
}

/// What is wrong with a path whose parent was looked for, if anything: it
/// has none, or another one than `expected`.
pub open spec fn parent_fault(
    path: Seq<char>,
    parent: Option<Seq<char>>,
    expected: Seq<char>,
) -> Option<ErrorView> {
    match parent {
        None => Some(ErrorView::NoParent(path)),
        Some(found) => if found == expected {
            None
        } else {
            Some(ErrorView::DirectoryNotUnique { expected, found })
        },
    }
}

/// What is wrong with `item` as an entry of the directory `expected`, if
/// anything. With `must_exist`, a path that does not exist is the first
/// fault.
pub open spec fn item_fault(item: LocatedView, expected: Seq<char>, must_exist: bool) -> Option<
    ErrorView,
> {
    if must_exist && existence_fault(item.path, item.exists) is Some {
        existence_fault(item.path, item.exists)
    } else {
        parent_fault(item.path, item.parent, expected)
    }
}

/// The fault of the first of the first `n` items that has one.
pub open spec fn first_item_fault(
    items: Seq<LocatedView>,
    expected: Seq<char>,
    must_exist: bool,
    n: nat,
) -> Option<ErrorView>
    decreases n,
{
    if n == 0 {
        None
    } else {
        let before = first_item_fault(items, expected, must_exist, (n - 1) as nat);
        if before is Some {
            before
        } else {
            item_fault(items[n - 1], expected, must_exist)
        }
    }
}

/// Those of the first `n` items that are kept: all of them, or with
/// `ignore_hidden` those that are not hidden.
pub open spec fn kept(items: Seq<LocatedView>, ignore_hidden: bool, n: nat) -> Seq<FoundView>
    decreases n,
{
    if n == 0 {
        Seq::empty()
    } else {
        let before = kept(items, ignore_hidden, (n - 1) as nat);
        if ignore_hidden && items[n - 1].hidden {
            before
        } else {
            before.push(FoundView { path: items[n - 1].path, name: items[n - 1].name })
        }
    }
}

/// The listing of `items` as entries of the directory `expected`, or the
/// first fault among them.
pub open spec fn listing_in(
    items: Seq<LocatedView>,
    expected: Seq<char>,
    must_exist: bool,
    ignore_hidden: bool,
) -> Result<ListingView, ErrorView> {
    match first_item_fault(items, expected, must_exist, items.len()) {
        Some(fault) => Err(fault),
        None => Ok(
            ListingView { parent: expected, found: kept(items, ignore_hidden, items.len()) },
        ),
    }
}

/// The listing of paths that were given by hand: there has to be one, and
/// they lie in the directory of the first one.
pub open spec fn listing_of_paths(items: Seq<LocatedView>, ignore_hidden: bool) -> Result<
    ListingView,
    ErrorView,
> {
    if items.len() == 0 {
        Err(ErrorView::EmptyEntrySet)
    } else {
        match items[0].parent {
            None => Err(ErrorView::NoParent(items[0].path)),
            Some(expected) => listing_in(items, expected, true, ignore_hidden),
        }
    }
}

/// The views inside a result that holds a listing.
pub open spec fn listing_result_view(result: Result<Listing, Error>) -> Result<
    ListingView,
    ErrorView,
> {
    match result {
        Ok(listing) => Ok(listing@),
        Err(error) => Err(error@),
    }
}

/// Accepts a path that exists, and refuses one that does not.
pub fn ensure_paths_exists(path: &str, exists: bool) -> (checked: Result<(), Error>)
    ensures
        match checked {
            Ok(_) => existence_fault(path@, exists) is None,
            Err(error) => existence_fault(path@, exists) == Some(error@),
        },
{
    if !exists {
        return Err(Error::PathDoesNotExist(String::from_str(path)));
    }
    Ok(())
}

/// Accepts a path whose parent, which was looked for, is `expected_parent`,
/// and refuses one that has no parent or another one.
pub fn ensure_parent_matches(path: &str, parent: &Option<String>, expected_parent: &str) -> (checked:
    Result<(), Error>)
    ensures
        match checked {
            Ok(_) => parent_fault(path@, optional_text(*parent), expected_parent@) is None,
            Err(error) => parent_fault(path@, optional_text(*parent), expected_parent@) == Some(
                error@,
            ),
        },
{
    match parent {
        None => Err(Error::NoParent(String::from_str(path))),
        Some(found) => {
            if same_text(found.as_str(), expected_parent) {
                Ok(())
            } else {
                Err(
                    Error::DirectoryNotUnique {
                        expected: String::from_str(expected_parent),
                        found: found.clone(),
                    },
                )
            }
        },
    }
}

/// Lists `items` as entries of the directory `expected`.
pub fn list_in(items: &Vec<Located>, expected: &str, must_exist: bool, ignore_hidden: bool) -> (listing:
    Result<Listing, Error>)
    ensures
        listing_result_view(listing) == listing_in(
            located_views(items@),
            expected@,
            must_exist,
            ignore_hidden,
        ),
{
    let mut found: Vec<Found> = Vec::new();
    let ghost views = located_views(items@);
    let mut i: usize = 0;
    while i < items.len()
        invariant
            i <= items.len(),
            views == located_views(items@),
            first_item_fault(views, expected@, must_exist, i as nat) is None,
            found_views(found@) == kept(views, ignore_hidden, i as nat),
        decreases items.len() - i,
    {
        let item = &items[i];
        assert(views[i as int] == item@);
        if must_exist {
            match ensure_paths_exists(item.path.as_str(), item.exists) {
                Err(error) => {
                    assert(first_item_fault(views, expected@, must_exist, (i + 1) as nat) == Some(
                        error@,
                    ));
                    proof {
                        lemma_first_item_fault_stays(
                            views,
                            expected@,
                            must_exist,
                            (i + 1) as nat,
                            views.len(),
                        );
                    }
                    return Err(error);
                },
                Ok(_) => {},
            }
        }
        match ensure_parent_matches(item.path.as_str(), &item.parent, expected) {
            Err(error) => {
                assert(first_item_fault(views, expected@, must_exist, (i + 1) as nat) == Some(
                    error@,
                ));
                proof {
                    lemma_first_item_fault_stays(
                            views,
                            expected@,
                            must_exist,
                            (i + 1) as nat,
                            views.len(),
                        );
                }
                return Err(error);
            },
            Ok(_) => {},
        }
        if !(ignore_hidden && item.hidden) {
            let ghost before = found_views(found@);
            let entry = Found { path: item.path.clone(), name: item.name.clone() };
            assert(entry@ == FoundView { path: item@.path, name: item@.name });
            found.push(entry);
            assert(found_views(found@) =~= before.push(entry@));
        }
        i = i + 1;
    }
    let listing = Listing { parent: String::from_str(expected), found };
    Ok(listing)
}

/// A fault that was found among the first items stays the first fault when
/// more items are looked at.
pub proof fn lemma_first_item_fault_stays(
    items: Seq<LocatedView>,
    expected: Seq<char>,
    must_exist: bool,
    n: nat,
    m: nat,
)
    requires
        n <= m,
        first_item_fault(items, expected, must_exist, n) is Some,
    ensures
        first_item_fault(items, expected, must_exist, m) == first_item_fault(
            items,
            expected,
            must_exist,
            n,
        ),
    decreases m,
{
    if n < m {
        lemma_first_item_fault_stays(items, expected, must_exist, n, (m - 1) as nat);
    }
}

/// Takes the path of `candidate` apart.
pub fn locate(candidate: &Candidate) -> (item: Located)
    ensures
        item@ == located(candidate@),
{
    let normal = normalize(candidate.path.as_str());
    Located {
        path: candidate.path.clone(),
        parent: std_parent(normal.as_str()),
        name: std_file_name(normal.as_str()),
        exists: candidate.exists,
        hidden: candidate.hidden,
    }
}

/// Each of `candidates` with its path taken apart.
pub open spec fn all_located(candidates: Seq<CandidateView>) -> Seq<LocatedView> {
    candidates.map_values(|candidate: CandidateView| located(candidate))
}

/// Takes the path of each of `candidates` apart.
pub fn locate_all(candidates: &Vec<Candidate>) -> (items: Vec<Located>)
    ensures
        located_views(items@) == all_located(candidate_views(candidates@)),
{
    let mut items: Vec<Located> = Vec::new();
    let mut i: usize = 0;
    while i < candidates.len()
        invariant
            i <= candidates.len(),
            items.len() == i,
            forall|j: int| 0 <= j < i ==> (#[trigger] items@[j])@ == located(candidates@[j]@),
        decreases candidates.len() - i,
    {
        let item = locate(&candidates[i]);
        items.push(item);
        i = i + 1;
    }
    assert(located_views(items@) =~= all_located(candidate_views(candidates@)));
    items
}

/// Lists paths that were given by hand and have been taken apart. There has
/// to be one, and each has to exist and to lie in the directory of the first
/// one.
pub fn list_located(items: &Vec<Located>, ignore_hidden: bool) -> (listing: Result<
    Listing,
    Error,
>)
    ensures
        listing_result_view(listing) == listing_of_paths(located_views(items@), ignore_hidden),
{
    if items.len() == 0 {
        return Err(Error::EmptyEntrySet);
    }
    assert(located_views(items@)[0] == items@[0]@);
    match &items[0].parent {
        None => Err(Error::NoParent(items[0].path.clone())),
        Some(expected) => list_in(items, expected.as_str(), true, ignore_hidden),
    }
}

/// Lists the paths `paths`, which were given by hand. There has to be one,
/// and each has to exist and to lie in the directory of the first one.
pub fn get_files_from_list(paths: &Vec<Candidate>, ignore_hidden: bool) -> (listing: Result<
    Listing,
    Error,
>)
    ensures
        listing_result_view(listing) == listing_of_paths(
            all_located(candidate_views(paths@)),
            ignore_hidden,
        ),
{
    let items = locate_all(paths);
    list_located(&items, ignore_hidden)
}

/// Lists `children`, the entries that were read from the directory `dir`.
/// Each has to lie in `dir`.
pub fn get_files_from_directory(dir: &str, children: &Vec<Candidate>, ignore_hidden: bool) -> (listing:
    Result<Listing, Error>)
    ensures
        listing_result_view(listing) == listing_in(
            all_located(candidate_views(children@)),
            normal_form(dir@),
            false,
            ignore_hidden,
        ),
{
    let items = locate_all(children);
    let expected = normalize(dir);
    list_in(&items, expected.as_str(), false, ignore_hidden)
}

/// Paths from two directories cannot be listed together: where all paths
/// before one exist and lie in the directory of the first, and that one
/// exists and lies in another, both directories are named.
pub proof fn lemma_two_directories_are_refused(
    items: Seq<LocatedView>,
    ignore_hidden: bool,
    k: int,
    first: Seq<char>,
    other: Seq<char>,
)
    requires
        0 < k < items.len(),
        forall|j: int| 0 <= j < k ==> (#[trigger] items[j]).exists && items[j].parent == Some(first),
        items[k].exists,
        items[k].parent == Some(other),
        other != first,
    ensures
        listing_of_paths(items, ignore_hidden) == Err::<ListingView, ErrorView>(
            ErrorView::DirectoryNotUnique { expected: first, found: other },
        ),
{
    assert(items[0].parent == Some(first));
    lemma_no_fault_upto(items, first, k as nat);
    lemma_first_item_fault_stays(items, first, true, (k + 1) as nat, items.len());
}

/// Paths that exist and lie in the expected directory are without fault.
proof fn lemma_no_fault_upto(items: Seq<LocatedView>, expected: Seq<char>, n: nat)
    requires
        n <= items.len(),
        forall|j: int|
            0 <= j < n ==> (#[trigger] items[j]).exists && items[j].parent == Some(expected),
    ensures
        first_item_fault(items, expected, true, n) is None,
    decreases n,
{
    if n > 0 {
        lemma_no_fault_upto(items, expected, (n - 1) as nat);
    }
}

} // verus!
