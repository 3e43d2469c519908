use crate::dirops::{parent_of, resolve, resolved, std_parent};
use crate::error::{Error, ErrorView};
use crate::format::{
    fits_a_line, lemma_lines_of_concat, lemma_one_line, lemma_written_line_fits, line_for, lines_of,
    push_line,
};
use crate::listing::{
    ensure_parent_matches, found_views, parent_fault, FoundView, Listing, ListingView,
};
use crate::text::{
    comes_before, lemma_precedes_asymmetric, lemma_precedes_irreflexive, lemma_precedes_total,
    lemma_precedes_transitive, precedes, string_of, texts,
};
use vstd::prelude::*;

verus! {

/// Each of `paths` comes before all that follow it, in the lexicographic
/// order. Then none occurs twice.
pub open spec fn ascending(paths: Seq<Seq<char>>) -> bool {
    forall|i: int, j: int| 0 <= i < j < paths.len() ==> precedes(paths[i], paths[j])
}

/// In an ascending list nothing occurs twice.
pub proof fn lemma_ascending_holds_nothing_twice(paths: Seq<Seq<char>>)
    requires
        ascending(paths),
    ensures
        paths.no_duplicates(),
{
    assert forall|i: int, j: int| 0 <= i < paths.len() && 0 <= j < paths.len() && i != j implies paths[i]
        != paths[j] by {
        lemma_precedes_irreflexive(paths[i]);
    }
}

/// The last of an ascending list is behind every text of the list, or is
/// that text.
proof fn lemma_last_is_greatest(paths: Seq<Seq<char>>, path: Seq<char>)
    requires
        ascending(paths),
        paths.contains(path),
    ensures
        path == paths.last() || precedes(path, paths.last()),
{
    let k = choose|k: int| 0 <= k < paths.len() && paths[k] == path;
    if k < paths.len() - 1 {
        assert(precedes(paths[k], paths[paths.len() - 1]));
    }
}

/// Ascending lists that hold the same paths are the same list: which index
/// an entry gets is decided by the paths that are there, not by the order in
/// which they were found.
pub proof fn lemma_ascending_is_unique(a: Seq<Seq<char>>, b: Seq<Seq<char>>)
    requires
        ascending(a),
        ascending(b),
        a.to_set() == b.to_set(),
    ensures
        a == b,
    decreases a.len(),
{
    if a.len() == 0 {
        if b.len() > 0 {
            assert(b.to_set().contains(b[0]));
            assert(a.contains(b[0]));
        }
        assert(a =~= b);
    } else {
        assert(a.to_set().contains(a.last()));
        assert(b.contains(a.last()));
        assert(b.to_set().contains(b.last()));
        assert(a.contains(b.last()));
        lemma_last_is_greatest(b, a.last());
        lemma_last_is_greatest(a, b.last());
        if a.last() != b.last() {
            lemma_precedes_asymmetric(a.last(), b.last());
        }
        let shorter_a = a.drop_last();
        let shorter_b = b.drop_last();
        lemma_ascending_holds_nothing_twice(a);
        lemma_ascending_holds_nothing_twice(b);
        assert forall|name: Seq<char>|
            shorter_a.to_set().contains(name) <==> shorter_b.to_set().contains(name) by {
            if shorter_a.contains(name) {
                let k = choose|k: int| 0 <= k < shorter_a.len() && shorter_a[k] == name;
                assert(a[k] == name);
                assert(a.to_set().contains(name));
                assert(b.contains(name));
                let j = choose|j: int| 0 <= j < b.len() && b[j] == name;
                assert(j < b.len() - 1);
                assert(shorter_b[j] == name);
            }
            if shorter_b.contains(name) {
                let k = choose|k: int| 0 <= k < shorter_b.len() && shorter_b[k] == name;
                assert(b[k] == name);
                assert(b.to_set().contains(name));
                assert(a.contains(name));
                let j = choose|j: int| 0 <= j < a.len() && a[j] == name;
                assert(j < a.len() - 1);
                assert(shorter_a[j] == name);
            }
        }
        assert(shorter_a.to_set() =~= shorter_b.to_set());
        assert(ascending(shorter_a)) by {
            assert forall|i: int, j: int| 0 <= i < j < shorter_a.len() implies precedes(
                shorter_a[i],
                shorter_a[j],
            ) by {
                assert(shorter_a[i] == a[i] && shorter_a[j] == a[j]);
            }
        }
        assert(ascending(shorter_b)) by {
            assert forall|i: int, j: int| 0 <= i < j < shorter_b.len() implies precedes(
                shorter_b[i],
                shorter_b[j],
            ) by {
                assert(shorter_b[i] == b[i] && shorter_b[j] == b[j]);
            }
        }
        lemma_ascending_is_unique(shorter_a, shorter_b);
        assert(a =~= shorter_a.push(a.last()));
        assert(b =~= shorter_b.push(b.last()));
    }
}

/// An entry that is being edited.
#[derive(Debug, PartialEq, Eq)]
pub struct Entry {
    /// The file name of the entry: what the listing shows.
    pub name: String,
    /// The path of the entry: the directory of the listing joined with the
    /// file name.
    pub path: String,
}

/// An [`Entry`] with the texts of its strings.
pub struct EntryView {
    pub name: Seq<char>,
    pub path: Seq<char>,
}

impl View for Entry {
    type V = EntryView;

    open spec fn view(&self) -> EntryView {
        EntryView { name: self.name@, path: self.path@ }
    }
}

/// The views of a sequence of entries.
pub open spec fn entry_views(entries: Seq<Entry>) -> Seq<EntryView> {
    entries.map_values(|entry: Entry| entry@)
}

/// The paths of a sequence of entries.
pub open spec fn paths_of(entries: Seq<EntryView>) -> Seq<Seq<char>> {
    entries.map_values(|entry: EntryView| entry.path)
}

/// The file names of a sequence of entries.
pub open spec fn names_of(entries: Seq<EntryView>) -> Seq<Seq<char>> {
    entries.map_values(|entry: EntryView| entry.name)
}

/// `entry` is an entry of the directory `parent`: its path is its file name
/// inside that directory, and the directory is the parent of its path.
pub open spec fn lies_in(entry: EntryView, parent: Seq<char>) -> bool {
    &&& entry.path == resolved(parent, entry.name)
    &&& parent_of(entry.path) == Some(parent)
}

/// The entry of the directory `parent` that has the file name `name`.
pub open spec fn entry_named(name: Seq<char>, parent: Seq<char>) -> EntryView {
    EntryView { name, path: resolved(parent, name) }
}

/// What stands against taking `found` as an entry of the directory
/// `parent`, if anything: it has no file name, or its file name inside the
/// directory is no path of which the directory is the parent.
pub open spec fn entry_fault(found: FoundView, parent: Seq<char>) -> Option<ErrorView> {
    match found.name {
        None => Some(ErrorView::NoFileName(found.path)),
        Some(name) => parent_fault(
            resolved(parent, name),
            parent_of(resolved(parent, name)),
            parent,
        ),
    }
}

/// The fault of the first of the first `n` entries that has one.
pub open spec fn first_entry_fault(found: Seq<FoundView>, parent: Seq<char>, n: nat) -> Option<
    ErrorView,
>
    decreases n,
{
    if n == 0 {
        None
    } else {
        let before = first_entry_fault(found, parent, (n - 1) as nat);
        if before is Some {
            before
        } else {
            entry_fault(found[n - 1], parent)
        }
    }
}

/// Why no snapshot can be made of `listing`, if anything: it is empty, or
/// one of its entries has a fault.
pub open spec fn snapshot_fault(listing: ListingView) -> Option<ErrorView> {
    if listing.found.len() == 0 {
        Some(ErrorView::EmptyEntrySet)
    } else {
        first_entry_fault(listing.found, listing.parent, listing.found.len())
    }
}

/// The paths of the first `n` entries that were found, each taken as its
/// file name inside the directory `parent`.
pub open spec fn paths_among(found: Seq<FoundView>, parent: Seq<char>, n: nat) -> Set<Seq<char>> {
    Set::new(
        |path: Seq<char>|
            exists|k: int|
                0 <= k < n && (#[trigger] found[k]).name is Some && resolved(
                    parent,
                    found[k].name.unwrap(),
                ) == path,
    )
}

/// The file name that gives `path` among the first `n` entries that were
/// found, each taken as its file name inside the directory `parent`: that of
/// the first entry that does.
pub open spec fn name_for(found: Seq<FoundView>, parent: Seq<char>, path: Seq<char>, n: nat) -> Option<
    Seq<char>,
>
    decreases n,
{
    if n == 0 {
        None
    } else {
        let before = name_for(found, parent, path, (n - 1) as nat);
        if before is Some {
            before
        } else if found[n - 1].name is Some && resolved(parent, found[n - 1].name.unwrap())
            == path {
            found[n - 1].name
        } else {
            None
        }
    }
}

/// A path has a name among the entries that were found where it is one of
/// their paths.
pub proof fn lemma_name_for(found: Seq<FoundView>, parent: Seq<char>, path: Seq<char>, n: nat)
    ensures
        name_for(found, parent, path, n) is Some <==> paths_among(found, parent, n).contains(path),
        name_for(found, parent, path, n) matches Some(name) ==> resolved(parent, name) == path,
    decreases n,
{
    if n > 0 {
        let m = (n - 1) as nat;
        lemma_name_for(found, parent, path, m);
        if paths_among(found, parent, n).contains(path) {
            let k = choose|k: int|
                0 <= k < n && (#[trigger] found[k]).name is Some && resolved(
                    parent,
                    found[k].name.unwrap(),
                ) == path;
            if k < m {
                assert(found[k].name is Some);
                assert(paths_among(found, parent, m).contains(path));
            }
        }
        if paths_among(found, parent, m).contains(path) {
            let k = choose|k: int|
                0 <= k < m && (#[trigger] found[k]).name is Some && resolved(
                    parent,
                    found[k].name.unwrap(),
                ) == path;
            assert(found[k].name is Some);
        }
        if name_for(found, parent, path, m) is None && found[m as int].name is Some && resolved(
            parent,
            found[m as int].name.unwrap(),
        ) == path {
            assert(found[m as int].name is Some);
        }
    }
}

/// The text that lists `names`: for each its place and the name, with a tab
/// between them and a line feed behind them.
pub open spec fn listed(names: Seq<Seq<char>>, n: nat) -> Seq<char>
    decreases n,
{
    if n == 0 {
        Seq::empty()
    } else {
        listed(names, (n - 1) as nat) + line_for((n - 1) as usize, names[n - 1]) + seq!['\n']
    }
}

/// The lines that list `names`: for each its place and the name.
pub open spec fn lines_listing(names: Seq<Seq<char>>, n: nat) -> Seq<Seq<char>> {
    Seq::new(n, |i: int| line_for(i as usize, names[i]))
}

/// The text that lists names is read as one line for each name, where each
/// name fits a line.
pub proof fn lemma_listed_lines(names: Seq<Seq<char>>, n: nat)
    requires
        n <= names.len(),
        forall|i: int| 0 <= i < n ==> fits_a_line(#[trigger] names[i]),
    ensures
        lines_of(listed(names, n)) == lines_listing(names, n),
        listed(names, n).len() == 0 || listed(names, n).last() == '\n',
    decreases n,
{
    if n == 0 {
        assert(lines_of(listed(names, n)) =~= lines_listing(names, n));
    } else {
        let m = (n - 1) as nat;
        lemma_listed_lines(names, m);
        let line = line_for(m as usize, names[m as int]);
        lemma_written_line_fits(m as usize, names[m as int]);
        lemma_one_line(line);
        lemma_lines_of_concat(listed(names, m), line + seq!['\n']);
        assert(listed(names, n) =~= listed(names, m) + (line + seq!['\n']));
        assert(lines_listing(names, n) =~= lines_listing(names, m) + seq![line]);
    }
}

/// A fault that was found among the first entries stays the first fault
/// when more are looked at.
pub proof fn lemma_first_entry_fault_stays(
    found: Seq<FoundView>,
    parent: Seq<char>,
    n: nat,
    m: nat,
)
    requires
        n <= m,
        first_entry_fault(found, parent, n) is Some,
    ensures
        first_entry_fault(found, parent, m) == first_entry_fault(found, parent, n),
    decreases m,
{
    if n < m {
        lemma_first_entry_fault_stays(found, parent, n, (m - 1) as nat);
    }
}

/// Puts `entry` into `entries` at the place of its path in the order, unless
/// an entry with that path is there.
pub fn insert_ascending(entries: &mut Vec<Entry>, entry: Entry)
    requires
        ascending(paths_of(entry_views(old(entries)@))),
    ensures
        ascending(paths_of(entry_views(final(entries)@))),
        paths_of(entry_views(final(entries)@)).to_set() == paths_of(
            entry_views(old(entries)@),
        ).to_set().insert(entry@.path),
        forall|i: int|
            0 <= i < final(entries)@.len() ==> (#[trigger] entry_views(final(entries)@)[i])
                == entry@ || entry_views(old(entries)@).contains(entry_views(final(entries)@)[i]),
        forall|i: int|
            0 <= i < old(entries)@.len() ==> entry_views(final(entries)@).contains(
                #[trigger] entry_views(old(entries)@)[i],
            ),
        final(entries)@.len() > 0,
{
    let ghost old_views = entry_views(entries@);
    let ghost before = paths_of(old_views);
    let mut at: usize = entries.len();
    while at > 0 && comes_before(entry.path.as_str(), entries[at - 1].path.as_str())
        invariant
            at <= entries.len(),
            entry_views(entries@) == old_views,
            before == paths_of(old_views),
            forall|j: int| at <= j < before.len() ==> precedes(entry@.path, before[j]),
        decreases at,
    {
        assert(before[at - 1] == entries@[at - 1]@.path);
        at = at - 1;
    }
    if at > 0 && entries[at - 1].path == entry.path {
        assert(before[at - 1] == entry@.path);
        assert(before.to_set().insert(entry@.path) =~= before.to_set());
        assert forall|i: int| 0 <= i < entries@.len() implies old_views.contains(
            #[trigger] entry_views(entries@)[i],
        ) by {
            assert(old_views[i] == entry_views(entries@)[i]);
        }
        assert forall|i: int| 0 <= i < old_views.len() implies entry_views(entries@).contains(
            #[trigger] old_views[i],
        ) by {
            assert(entry_views(entries@)[i] == old_views[i]);
        }
        return ;
    }
    proof {
        if at > 0 {
            assert(before[at - 1] == entries@[at - 1]@.path);
            lemma_precedes_total(before[at - 1], entry@.path);
        }
    }
    entries.insert(at, entry);
    proof {
        let new_views = entry_views(entries@);
        let after = paths_of(new_views);
        assert(new_views =~= old_views.insert(at as int, entry@));
        assert(after =~= before.insert(at as int, entry@.path));
        assert forall|i: int, j: int| 0 <= i < j < after.len() implies precedes(
            after[i],
            after[j],
        ) by {
            if j == at {
                if i < at - 1 {
                    lemma_precedes_transitive(before[i], before[at - 1], entry@.path);
                }
            } else if i == at {
                assert(after[j] == before[j - 1]);
            } else {
                let bi = if i < at {
                    i
                } else {
                    i - 1
                };
                let bj = if j < at {
                    j
                } else {
                    j - 1
                };
                assert(after[i] == before[bi] && after[j] == before[bj]);
            }
        }
        assert forall|text: Seq<char>| after.to_set().contains(text) <==> before.to_set().insert(
            entry@.path,
        ).contains(text) by {
            if after.contains(text) {
                let k = choose|k: int| 0 <= k < after.len() && after[k] == text;
                if k < at {
                    assert(before[k] == text);
                } else if k > at {
                    assert(before[k - 1] == text);
                }
            }
            if before.contains(text) {
                let k = choose|k: int| 0 <= k < before.len() && before[k] == text;
                if k < at {
                    assert(after[k] == text);
                } else {
                    assert(after[k + 1] == text);
                }
            }
            if text == entry@.path {
                assert(after[at as int] == text);
            }
        }
        assert(after.to_set() =~= before.to_set().insert(entry@.path));
        assert forall|i: int| 0 <= i < new_views.len() implies (#[trigger] new_views[i]) == entry@
            || old_views.contains(new_views[i]) by {
            if i < at {
                assert(old_views[i] == new_views[i]);
            } else if i > at {
                assert(old_views[i - 1] == new_views[i]);
            }
        }
        assert forall|i: int| 0 <= i < old_views.len() implies new_views.contains(
            #[trigger] old_views[i],
        ) by {
            if i < at {
                assert(new_views[i] == old_views[i]);
            } else {
                assert(new_views[i + 1] == old_views[i]);
            }
        }
    }
}

/// The entries of one directory that are being edited, in the ascending
/// order of their paths, each once. The place of an entry is its index.
#[derive(Debug)]
pub struct Snapshot {
    /// The directory in which all the entries lie.
    parent: String,
    /// The entries.
    entries: Vec<Entry>,
}

impl Snapshot {
    /// The directory in which all the entries lie.
    pub closed spec fn parent_text(&self) -> Seq<char> {
        self.parent@
    }

    /// The entries, by index.
    pub closed spec fn entries_view(&self) -> Seq<EntryView> {
        entry_views(self.entries@)
    }

    /// The file names of the entries, by index.
    pub open spec fn names_text(&self) -> Seq<Seq<char>> {
        names_of(self.entries_view())
    }

    /// The paths of the entries, by index.
    pub open spec fn paths_text(&self) -> Seq<Seq<char>> {
        paths_of(self.entries_view())
    }

    /// What holds of every snapshot: it has an entry, the paths of its
    /// entries ascend, and each entry is an entry of its directory.
    pub open spec fn consistent(&self) -> bool {
        &&& self.entries_view().len() > 0
        &&& ascending(self.paths_text())
        &&& forall|i: int|
            0 <= i < self.entries_view().len() ==> lies_in(
                #[trigger] self.entries_view()[i],
                self.parent_text(),
            )
    }

    #[verifier::type_invariant]
    spec fn wf(&self) -> bool {
        self.consistent()
    }

    /// The snapshot holds the entries of `listing`: it has its directory,
    /// and its entries are those of the listing, each taken as its file name
    /// inside that directory. Where several file names give one path, the
    /// entry has the first of them.
    pub open spec fn holds(&self, listing: ListingView) -> bool {
        &&& self.consistent()
        &&& self.parent_text() == listing.parent
        &&& self.paths_text().to_set() == paths_among(
            listing.found,
            listing.parent,
            listing.found.len(),
        )
        &&& forall|i: int|
            0 <= i < self.entries_view().len() ==> name_for(
                listing.found,
                listing.parent,
                (#[trigger] self.entries_view()[i]).path,
                listing.found.len(),
            ) == Some(self.entries_view()[i].name)
    }

    /// Makes the snapshot of a listing: there has to be an entry, each has
    /// to have a file name, and the path that the file name means inside
    /// the directory of the listing has to lie in that directory.
    pub fn from_listing(listing: Listing) -> (snapshot: Result<Snapshot, Error>)
        ensures
            match snapshot {
                Ok(snapshot) => snapshot_fault(listing@) is None && snapshot.holds(listing@),
                Err(error) => snapshot_fault(listing@) == Some(error@),
            },
    {
        let Listing { parent, found } = listing;
        if found.len() == 0 {
            return Err(Error::EmptyEntrySet);
        }
        let ghost views = found_views(found@);
        let ghost directory = parent@;
        let mut entries: Vec<Entry> = Vec::new();
        let mut i: usize = 0;
        assert(paths_of(entry_views(entries@)).to_set() =~= paths_among(views, directory, 0));
        while i < found.len()
            invariant
                i <= found.len(),
                views == found_views(found@),
                views == listing@.found,
                directory == parent@,
                directory == listing@.parent,
                found@.len() == listing.found@.len(),
                first_entry_fault(views, directory, i as nat) is None,
                ascending(paths_of(entry_views(entries@))),
                paths_of(entry_views(entries@)).to_set() == paths_among(views, directory, i as nat),
                forall|j: int|
                    0 <= j < entries@.len() ==> lies_in(
                        #[trigger] entry_views(entries@)[j],
                        directory,
                    ) && name_for(views, directory, entry_views(entries@)[j].path, i as nat)
                        == Some(entry_views(entries@)[j].name),
                i > 0 ==> entries.len() > 0,
            decreases found.len() - i,
        {
            assert(views[i as int] == found@[i as int]@);
            let name = match &found[i].name {
                None => {
                    let error = Error::NoFileName(found[i].path.clone());
                    proof {
                        assert(first_entry_fault(views, directory, (i + 1) as nat) == Some(
                            error@,
                        ));
                        lemma_first_entry_fault_stays(
                            views,
                            directory,
                            (i + 1) as nat,
                            views.len(),
                        );
                    }
                    return Err(error);
                },
                Some(name) => name,
            };
            let path = resolve(parent.as_str(), name.as_str());
            let above = std_parent(path.as_str());
            match ensure_parent_matches(path.as_str(), &above, parent.as_str()) {
                Err(error) => {
                    proof {
                        assert(first_entry_fault(views, directory, (i + 1) as nat) == Some(
                            error@,
                        ));
                        lemma_first_entry_fault_stays(
                            views,
                            directory,
                            (i + 1) as nat,
                            views.len(),
                        );
                    }
                    return Err(error);
                },
                Ok(_) => {},
            }
            let entry = Entry { name: name.clone(), path };
            let ghost old_views = entry_views(entries@);
            assert(entry@ == entry_named(views[i as int].name.unwrap(), directory));
            insert_ascending(&mut entries, entry);
            proof {
                let new_views = entry_views(entries@);
                assert forall|j: int| 0 <= j < new_views.len() implies lies_in(
                    #[trigger] new_views[j],
                    directory,
                ) && name_for(views, directory, new_views[j].path, (i + 1) as nat) == Some(
                    new_views[j].name,
                ) by {
                    if old_views.contains(new_views[j]) {
                        let k = choose|k: int|
                            0 <= k < old_views.len() && old_views[k] == new_views[j];
                        assert(lies_in(old_views[k], directory));
                    } else {
                        assert(new_views[j] == entry@);
                        if paths_of(old_views).contains(entry@.path) {
                            let k = choose|k: int|
                                0 <= k < old_views.len() && paths_of(old_views)[k] == entry@.path;
                            assert(new_views.contains(old_views[k]));
                            let l = choose|l: int|
                                0 <= l < new_views.len() && new_views[l] == old_views[k];
                            lemma_ascending_holds_nothing_twice(paths_of(new_views));
                            assert(paths_of(new_views)[l] == paths_of(new_views)[j]);
                        }
                        assert(!paths_of(old_views).to_set().contains(entry@.path));
                        lemma_name_for(views, directory, entry@.path, i as nat);
                    }
                }
                assert forall|text: Seq<char>| paths_among(views, directory, (i + 1) as nat).contains(
                    text,
                ) <==> paths_among(views, directory, i as nat).insert(entry@.path).contains(
                    text,
                ) by {
                    if paths_among(views, directory, (i + 1) as nat).contains(text) {
                        let k = choose|k: int|
                            0 <= k < i + 1 && (#[trigger] views[k]).name is Some && resolved(
                                directory,
                                views[k].name.unwrap(),
                            ) == text;
                        if k < i {
                            assert(views[k].name is Some);
                            assert(paths_among(views, directory, i as nat).contains(text));
                        }
                    }
                    if paths_among(views, directory, i as nat).contains(text) {
                        let k = choose|k: int|
                            0 <= k < i && (#[trigger] views[k]).name is Some && resolved(
                                directory,
                                views[k].name.unwrap(),
                            ) == text;
                        assert(views[k].name is Some);
                    }
                    if text == entry@.path {
                        assert(views[i as int].name is Some);
                    }
                }
                assert(paths_among(views, directory, (i + 1) as nat) =~= paths_among(
                    views,
                    directory,
                    i as nat,
                ).insert(entry@.path));
            }
            i = i + 1;
        }
        Ok(Snapshot { parent, entries })
    }

    /// How many entries there are.
    pub fn len(&self) -> (count: usize)
        ensures
            count == self.entries_view().len(),
            self.consistent(),
    {
        proof {
            use_type_invariant(self);
        }
        self.entries.len()
    }

    /// The directory in which all the entries lie.
    pub fn parent(&self) -> (parent: &String)
        ensures
            parent@ == self.parent_text(),
    {
        &self.parent
    }

    /// The file name of the entry `index`.
    pub fn name(&self, index: usize) -> (name: &String)
        requires
            index < self.entries_view().len(),
        ensures
            name@ == self.names_text()[index as int],
    {
        &self.entries[index].name
    }

    /// The path of the entry `index`.
    pub fn path(&self, index: usize) -> (path: &String)
        requires
            index < self.entries_view().len(),
        ensures
            path@ == self.paths_text()[index as int],
    {
        &self.entries[index].path
    }

    /// The paths of all entries, by index.
    pub fn paths(&self) -> (paths: Vec<String>)
        ensures
            texts(paths@) == self.paths_text(),
            self.consistent(),
    {
        proof {
            use_type_invariant(self);
        }
        let mut paths: Vec<String> = Vec::new();
        let mut i: usize = 0;
        while i < self.entries.len()
            invariant
                i <= self.entries.len(),
                paths.len() == i,
                forall|j: int| 0 <= j < i ==> (#[trigger] paths@[j])@ == self.paths_text()[j],
            decreases self.entries.len() - i,
        {
            paths.push(self.entries[i].path.clone());
            i = i + 1;
        }
        assert(texts(paths@) =~= self.paths_text());
        paths
    }

    /// The text that is handed out for editing: one line for each entry,
    /// with its index, a tab and its file name.
    pub fn create_instructions(&self) -> (text: String)
        ensures
            text@ == listed(self.names_text(), self.names_text().len()),
            self.consistent(),
    {
        proof {
            use_type_invariant(self);
        }
        let mut out: Vec<char> = Vec::new();
        let mut i: usize = 0;
        while i < self.entries.len()
            invariant
                i <= self.entries.len(),
                out@ == listed(self.names_text(), i as nat),
            decreases self.entries.len() - i,
        {
            assert(self.names_text()[i as int] == self.entries@[i as int]@.name);
            push_line(&mut out, i, self.entries[i].name.as_str());
            i = i + 1;
        }
        string_of(&out)
    }
}

} // verus!
