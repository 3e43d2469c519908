use crate::dirops::{normal_form, resolve, resolved};
use crate::error::{Error, ErrorView};
use crate::format::{
    can_be_listed, has_tab, lemma_line_reads_back, line_fault, line_index, line_views, lines_of,
    name_text, parse_line, split_lines,
};
use crate::instructions::Instructions;
use crate::keyedbag::{values_in, with_pair};
use crate::listing::{
    all_located, candidate_views, get_files_from_directory, get_files_from_list, listing_in,
    listing_of_paths, Candidate, CandidateView, ListingView,
};
use crate::plan::{
    copies_among, deletions, operation_views, plan_operations, planned, target_texts,
    OperationView, Plan,
};
use crate::plan_lemmas::{carries, lemma_nothing_asked_nothing_done};
use crate::snapshot::{lemma_listed_lines, lines_listing, listed, snapshot_fault, Snapshot};
use crate::text::{chars_of, texts};
use vstd::prelude::*;

verus! {

/// Where the entries to edit come from.
#[derive(Debug, Clone, Copy, PartialEq, Eq, Structural)]
pub enum Mode {
    /// From the working directory.
    WorkingDirectory,
    /// From the one directory that was given.
    Directory,
    /// They are the paths that were given.
    List,
}

/// Chooses where the entries come from: from the working directory where no
/// path was given, from the directory where one path was given and it is
/// one, and else the given paths are the entries.
pub fn choose_mode(given: usize, first_is_directory: bool) -> (mode: Mode)
    ensures
        mode == if given == 0 {
            Mode::WorkingDirectory
        } else if given == 1 && first_is_directory {
            Mode::Directory
        } else {
            Mode::List
        },
{
    if given == 0 {
        Mode::WorkingDirectory
    } else if given == 1 && first_is_directory {
        Mode::Directory
    } else {
        Mode::List
    }
}

/// The entries that are offered for editing.
#[derive(Debug, PartialEq, Eq)]
pub enum Source {
    /// What was read from the directory `dir`.
    Directory { dir: String, children: Vec<Candidate> },
    /// The paths that were given by hand.
    List { paths: Vec<Candidate> },
}

/// A [`Source`] with the views of what it holds.
pub enum SourceView {
    Directory { dir: Seq<char>, children: Seq<CandidateView> },
    List { paths: Seq<CandidateView> },
}

impl View for Source {
    type V = SourceView;

    open spec fn view(&self) -> SourceView {
        match *self {
            Source::Directory { dir, children } => SourceView::Directory {
                dir: dir@,
                children: candidate_views(children@),
            },
            Source::List { paths } => SourceView::List { paths: candidate_views(paths@) },
        }
    }
}

/// The listing of what `source` offers, or the first fault in it. What a
/// directory holds lies in that directory; paths given by hand exist and lie
/// in the directory of the first.
pub open spec fn listing_from(source: SourceView, ignore_hidden: bool) -> Result<
    ListingView,
    ErrorView,
> {
    match source {
        SourceView::Directory { dir, children } => listing_in(
            all_located(children),
            normal_form(dir),
            false,
            ignore_hidden,
        ),
        SourceView::List { paths } => listing_of_paths(all_located(paths), ignore_hidden),
    }
}

/// Takes the snapshot of the entries that `source` offers: there has to be
/// one at least, and each has to have a file name.
pub fn get_files(source: &Source, ignore_hidden: bool) -> (snapshot: Result<Snapshot, Error>)
    ensures
        match listing_from(source@, ignore_hidden) {
            Err(fault) => snapshot matches Err(error) && error@ == fault,
            Ok(listing) => match snapshot {
                Ok(snapshot) => snapshot_fault(listing) is None && snapshot.holds(listing),
                Err(error) => snapshot_fault(listing) == Some(error@),
            },
        },
{
    let listing = match source {
        Source::Directory { dir, children } => get_files_from_directory(
            dir.as_str(),
            children,
            ignore_hidden,
        ),
        Source::List { paths } => get_files_from_list(paths, ignore_hidden),
    };
    match listing {
        Err(error) => Err(error),
        Ok(listing) => Snapshot::from_listing(listing),
    }
}

/// The fault of the first of the first `n` lines that has one.
pub open spec fn first_line_fault(lines: Seq<Seq<char>>, n: nat) -> Option<ErrorView>
    decreases n,
{
    if n == 0 {
        None
    } else {
        let before = first_line_fault(lines, (n - 1) as nat);
        if before is Some {
            before
        } else {
            line_fault(lines[n - 1])
        }
    }
}

/// What the first `n` lines ask for, each of them being without fault: the
/// entry whose index a line carries is to end up at the path that the line's
/// name means inside the directory `parent`.
pub open spec fn asked(lines: Seq<Seq<char>>, parent: Seq<char>, n: nat) -> Map<
    usize,
    Set<Seq<char>>,
>
    decreases n,
{
    if n == 0 {
        Map::empty()
    } else {
        with_pair(
            asked(lines, parent, (n - 1) as nat),
            line_index(lines[n - 1]),
            resolved(parent, name_text(lines[n - 1])),
        )
    }
}

/// What the lines ask for does not depend on their order: the targets of an
/// index are the paths that the lines with this index name, wherever they
/// stand, and a path that is named twice is a target once.
pub proof fn lemma_asked_by_some_line(lines: Seq<Seq<char>>, parent: Seq<char>, n: nat)
    requires
        n <= lines.len(),
    ensures
        forall|index: usize, path: Seq<char>|
            #[trigger] values_in(asked(lines, parent, n), index).contains(path) <==> exists|k: int|
                0 <= k < n && line_index(#[trigger] lines[k]) == index && resolved(
                    parent,
                    name_text(lines[k]),
                ) == path,
    decreases n,
{
    if n > 0 {
        let m = (n - 1) as nat;
        lemma_asked_by_some_line(lines, parent, m);
        let before = asked(lines, parent, m);
        let last = lines[m as int];
        assert forall|index: usize, path: Seq<char>|
            #[trigger] values_in(asked(lines, parent, n), index).contains(path) <==> exists|k: int|
                0 <= k < n && line_index(#[trigger] lines[k]) == index && resolved(
                    parent,
                    name_text(lines[k]),
                ) == path by {
            if values_in(before, index).contains(path) {
                let k = choose|k: int|
                    0 <= k < m && line_index(#[trigger] lines[k]) == index && resolved(
                        parent,
                        name_text(lines[k]),
                    ) == path;
                assert(line_index(lines[k]) == index);
            }
            if exists|k: int|
                0 <= k < n && line_index(#[trigger] lines[k]) == index && resolved(
                    parent,
                    name_text(lines[k]),
                ) == path {
                let k = choose|k: int|
                    0 <= k < n && line_index(#[trigger] lines[k]) == index && resolved(
                        parent,
                        name_text(lines[k]),
                    ) == path;
                if k < m {
                    assert(line_index(lines[k]) == index);
                    assert(values_in(before, index).contains(path));
                }
            }
            if line_index(last) == index && resolved(parent, name_text(last)) == path {
                assert(line_index(lines[m as int]) == index);
            }
        }
    }
}

/// A fault that was found among the first lines stays the first fault when
/// more lines are read.
pub proof fn lemma_first_line_fault_stays(lines: Seq<Seq<char>>, n: nat, m: nat)
    requires
        n <= m,
        first_line_fault(lines, n) is Some,
    ensures
        first_line_fault(lines, m) == first_line_fault(lines, n),
    decreases m,
{
    if n < m {
        lemma_first_line_fault_stays(lines, n, (m - 1) as nat);
    }
}

/// Reads the instructions that `lines` give for the entries of the directory
/// `parent`.
pub fn instructions_from_lines(lines: &Vec<Vec<char>>, parent: &str) -> (instructions: Result<
    Instructions,
    Error,
>)
    ensures
        match instructions {
            Ok(instructions) => first_line_fault(line_views(lines@), lines@.len()) is None
                && instructions@ == asked(line_views(lines@), parent@, lines@.len()),
            Err(error) => first_line_fault(line_views(lines@), lines@.len()) == Some(error@),
        },
{
    let mut instructions = Instructions::new();
    let ghost all = line_views(lines@);
    let mut i: usize = 0;
    while i < lines.len()
        invariant
            i <= lines.len(),
            all == line_views(lines@),
            first_line_fault(all, i as nat) is None,
            instructions@ == asked(all, parent@, i as nat),
        decreases lines.len() - i,
    {
        assert(all[i as int] == lines@[i as int]@);
        match parse_line(&lines[i]) {
            Err(error) => {
                proof {
                    assert(first_line_fault(all, (i + 1) as nat) == Some(error@));
                    lemma_first_line_fault_stays(all, (i + 1) as nat, all.len());
                }
                return Err(error);
            },
            Ok((index, name)) => {
                let path = resolve(parent, name.as_str());
                instructions.insert(index, path);
            },
        }
        i = i + 1;
    }
    Ok(instructions)
}

/// Reads the edited text `text` for the entries of `state`.
pub fn parse_instructions(text: &str, state: &Snapshot) -> (instructions: Result<
    Instructions,
    Error,
>)
    ensures
        match instructions {
            Ok(instructions) => first_line_fault(lines_of(text@), lines_of(text@).len()) is None
                && instructions@ == asked(
                lines_of(text@),
                state.parent_text(),
                lines_of(text@).len(),
            ),
            Err(error) => first_line_fault(lines_of(text@), lines_of(text@).len()) == Some(
                error@,
            ),
        },
{
    let chars = chars_of(text);
    let lines = split_lines(&chars);
    instructions_from_lines(&lines, state.parent().as_str())
}

/// The targets that `instructions` hold for each of the first `n` indices.
pub open spec fn targets_upto(instructions: &Instructions, n: nat) -> Seq<Seq<Seq<char>>> {
    Seq::new(n, |i: int| instructions.targets_of(i as usize))
}

/// Works out the changes that `instructions` ask for on the entries of
/// `state`. Instructions that name an index that `state` does not have are
/// refused, before anything is worked out. Targets are not held against
/// each other, nor against the paths of other entries.
pub fn reconcile(state: &Snapshot, instructions: &Instructions) -> (plan: Result<Plan, Error>)
    ensures
        state.consistent(),
        match plan {
            Ok(plan) => {
                let paths = state.paths_text();
                let targets = targets_upto(instructions, paths.len());
                &&& forall|index: usize| instructions@.contains_key(index) ==> index < paths.len()
                &&& carries(targets, instructions@)
                &&& operation_views(plan.operations@) == planned(paths, targets)
                &&& plan.deleted == deletions(paths, targets, paths.len()).len()
                &&& plan.copied == copies_among(planned(paths, targets))
            },
            Err(error) => exists|index: usize|
                instructions@.contains_key(index) && index >= state.paths_text().len() && error@
                    == ErrorView::IndexOutOfRange(index),
        },
{
    let count = state.len();
    match instructions.index_beyond(count) {
        Some(index) => {
            return Err(Error::IndexOutOfRange(index));
        },
        None => {},
    }
    let paths = state.paths();
    let mut targets: Vec<Vec<String>> = Vec::new();
    let mut i: usize = 0;
    while i < count
        invariant
            i <= count,
            count == state.paths_text().len(),
            targets.len() == i,
            forall|j: int|
                0 <= j < i ==> texts((#[trigger] targets@[j])@) == instructions.targets_of(
                    j as usize,
                ) && texts(targets@[j]@).no_duplicates() && texts(targets@[j]@).to_set()
                    == values_in(instructions@, j as usize),
        decreases count - i,
    {
        let of_index = instructions.targets(i);
        targets.push(of_index);
        i = i + 1;
    }
    assert(target_texts(targets@) =~= targets_upto(instructions, count as nat));
    Ok(plan_operations(&paths, &targets))
}

/// What is asked for where nothing is to change: each of the first `n`
/// entries is to end up at its own path.
pub open spec fn unchanged(parent: Seq<char>, names: Seq<Seq<char>>, n: nat) -> Map<
    usize,
    Set<Seq<char>>,
> {
    Map::new(|index: usize| index < n, |index: usize| set![resolved(parent, names[index as int])])
}

/// The lines that list names without tab are without fault and ask for each
/// entry to end up at its own path.
pub proof fn lemma_listing_asks_for_no_change(names: Seq<Seq<char>>, parent: Seq<char>, n: nat)
    requires
        n <= names.len(),
        n <= usize::MAX,
        forall|i: int| 0 <= i < n ==> !has_tab(#[trigger] names[i]),
    ensures
        first_line_fault(lines_listing(names, names.len()), n) is None,
        asked(lines_listing(names, names.len()), parent, n) == unchanged(parent, names, n),
    decreases n,
{
    let lines = lines_listing(names, names.len());
    if n == 0 {
        assert(asked(lines, parent, n) =~= unchanged(parent, names, n));
    } else {
        let m = (n - 1) as nat;
        lemma_listing_asks_for_no_change(names, parent, m);
        lemma_line_reads_back(m as usize, names[m as int]);
        let before = unchanged(parent, names, m);
        let path = resolved(parent, names[m as int]);
        assert(values_in(before, m as usize) == Set::<Seq<char>>::empty());
        assert(Set::<Seq<char>>::empty().insert(path) =~= set![path]);
        assert(with_pair(before, m as usize, path) =~= unchanged(parent, names, n));
    }
}

/// A listing that is handed out reads back without fault, and asks for
/// each entry to end up at its own path and for nothing else. This holds
/// where every file name can be listed: it holds no tab and no line feed,
/// and does not end in a carriage return.
pub proof fn lemma_listing_reads_back(names: Seq<Seq<char>>, parent: Seq<char>)
    requires
        names.len() <= usize::MAX,
        forall|i: int| 0 <= i < names.len() ==> can_be_listed(#[trigger] names[i]),
    ensures
        ({
            let lines = lines_of(listed(names, names.len()));
            &&& first_line_fault(lines, lines.len()) is None
            &&& asked(lines, parent, lines.len()) == unchanged(parent, names, names.len())
        }),
{
    lemma_listed_lines(names, names.len());
    lemma_listing_asks_for_no_change(names, parent, names.len());
}

/// A listing that is handed out and read back as it is leads to no change:
/// nothing is deleted, moved or copied. This holds where every file name
/// can be listed.
pub proof fn lemma_unedited_listing_changes_nothing(
    names: Seq<Seq<char>>,
    parent: Seq<char>,
    targets: Seq<Seq<Seq<char>>>,
)
    requires
        names.len() <= usize::MAX,
        forall|i: int| 0 <= i < names.len() ==> can_be_listed(#[trigger] names[i]),
        targets.len() == names.len(),
        carries(
            targets,
            asked(
                lines_of(listed(names, names.len())),
                parent,
                lines_of(listed(names, names.len())).len(),
            ),
        ),
    ensures
        ({
            let paths = Seq::new(names.len(), |i: int| resolved(parent, names[i]));
            &&& planned(paths, targets) == Seq::<OperationView>::empty()
            &&& deletions(paths, targets, paths.len()).len() == 0
            &&& copies_among(planned(paths, targets)) == 0
        }),
{
    lemma_listing_reads_back(names, parent);
    let paths = Seq::new(names.len(), |i: int| resolved(parent, names[i]));
    let wanted = unchanged(parent, names, names.len());
    assert forall|i: int| 0 <= i < paths.len() implies values_in(wanted, i as usize) == set![
        paths[i],
    ] by {
        assert(wanted.contains_key(i as usize));
    }
    lemma_nothing_asked_nothing_done(paths, wanted, targets);
}

} // verus!
