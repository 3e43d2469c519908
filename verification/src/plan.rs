use crate::text::texts;
use vstd::prelude::*;

verus! {

/// One change to the file system.
#[derive(Debug, PartialEq, Eq)]
pub enum Operation {
    /// Remove the entry at `path`.
    Delete { path: String },
    /// Rename `from` to `to`.
    Move { from: String, to: String },
    /// Copy `from` to `to`.
    Copy { from: String, to: String },
}

/// An [`Operation`] with the texts of its paths.
pub enum OperationView {
    Delete { path: Seq<char> },
    Move { from: Seq<char>, to: Seq<char> },
    Copy { from: Seq<char>, to: Seq<char> },
}

impl View for Operation {
    type V = OperationView;

    open spec fn view(&self) -> OperationView {
        match *self {
            Operation::Delete { path } => OperationView::Delete { path: path@ },
            Operation::Move { from, to } => OperationView::Move { from: from@, to: to@ },
            Operation::Copy { from, to } => OperationView::Copy { from: from@, to: to@ },
        }
    }
}

/// The views of a sequence of operations, in order.
pub open spec fn operation_views(operations: Seq<Operation>) -> Seq<OperationView> {
    operations.map_values(|operation: Operation| operation@)
}

/// The texts of the targets of each index, in order.
pub open spec fn target_texts(targets: Seq<Vec<String>>) -> Seq<Seq<Seq<char>>> {
    targets.map_values(|of_index: Vec<String>| texts(of_index@))
}

/// The copies of `source` to each of `targets` but to `source` itself, in
/// the order of `targets`.
pub open spec fn copies(source: Seq<char>, targets: Seq<Seq<char>>) -> Seq<OperationView>
    decreases targets.len(),
{
    if targets.len() == 0 {
        Seq::empty()
    } else {
        let before = copies(source, targets.drop_last());
        if targets.last() == source {
            before
        } else {
            before.push(OperationView::Copy { from: source, to: targets.last() })
        }
    }
}

/// What is done for an entry `source` that has at least one target: with one
/// target it is moved there, unless it is there already; with more it is
/// copied to each, and deleted afterwards unless it is one of them.
pub open spec fn step(source: Seq<char>, targets: Seq<Seq<char>>) -> Seq<OperationView> {
    if targets.len() == 0 {
        Seq::empty()
    } else if targets.len() == 1 {
        if targets[0] == source {
            Seq::empty()
        } else {
            seq![OperationView::Move { from: source, to: targets[0] }]
        }
    } else if targets.contains(source) {
        copies(source, targets)
    } else {
        copies(source, targets).push(OperationView::Delete { path: source })
    }
}

/// The deletions of the first `n` entries that have no target, in the order
/// of the entries.
pub open spec fn deletions(paths: Seq<Seq<char>>, targets: Seq<Seq<Seq<char>>>, n: nat) -> Seq<
    OperationView,
>
    decreases n,
{
    if n == 0 {
        Seq::empty()
    } else {
        let before = deletions(paths, targets, (n - 1) as nat);
        if targets[n - 1].len() == 0 {
            before.push(OperationView::Delete { path: paths[n - 1] })
        } else {
            before
        }
    }
}

/// The moves and copies of the first `n` entries, with the deletions that
/// follow copies, in the order of the entries.
pub open spec fn changes(paths: Seq<Seq<char>>, targets: Seq<Seq<Seq<char>>>, n: nat) -> Seq<
    OperationView,
>
    decreases n,
{
    if n == 0 {
        Seq::empty()
    } else {
        changes(paths, targets, (n - 1) as nat) + step(paths[n - 1], targets[n - 1])
    }
}

/// All that is done for the entries `paths`, of which entry `i` has the
/// targets `targets[i]`: first every entry without a target is deleted, then
/// the others are moved or copied, in the order of the entries.
///
/// Each entry is dealt with by itself. A target that is the path of another
/// entry, or a target of two entries, is not looked for: where entries trade
/// their names, or two of them are sent to one place, the later operation
/// meets what the earlier one left.
pub open spec fn planned(paths: Seq<Seq<char>>, targets: Seq<Seq<Seq<char>>>) -> Seq<
    OperationView,
> {
    deletions(paths, targets, paths.len()) + changes(paths, targets, paths.len())
}

/// How many of `operations` are copies.
pub open spec fn copies_among(operations: Seq<OperationView>) -> nat
    decreases operations.len(),
{
    if operations.len() == 0 {
        0
    } else {
        copies_among(operations.drop_last()) + if operations.last() is Copy {
            1nat
        } else {
            0nat
        }
    }
}

/// Copies are counted piece by piece.
pub proof fn lemma_copies_among_concat(a: Seq<OperationView>, b: Seq<OperationView>)
    ensures
        copies_among(a + b) == copies_among(a) + copies_among(b),
    decreases b.len(),
{
    if b.len() == 0 {
        assert(a + b =~= a);
    } else {
        lemma_copies_among_concat(a, b.drop_last());
        assert((a + b).drop_last() =~= a + b.drop_last());
    }
}

/// `copies` holds copies only.
pub proof fn lemma_copies_are_copies(source: Seq<char>, targets: Seq<Seq<char>>)
    ensures
        copies_among(copies(source, targets)) == copies(source, targets).len(),
        copies(source, targets).len() <= targets.len(),
    decreases targets.len(),
{
    if targets.len() > 0 {
        lemma_copies_are_copies(source, targets.drop_last());
        let before = copies(source, targets.drop_last());
        if targets.last() != source {
            let all = before.push(OperationView::Copy { from: source, to: targets.last() });
            assert(all.drop_last() =~= before);
        }
    }
}

/// Deletions are no copies.
pub proof fn lemma_deletions_hold_no_copy(
    paths: Seq<Seq<char>>,
    targets: Seq<Seq<Seq<char>>>,
    n: nat,
)
    ensures
        copies_among(deletions(paths, targets, n)) == 0,
        deletions(paths, targets, n).len() <= n,
    decreases n,
{
    if n > 0 {
        lemma_deletions_hold_no_copy(paths, targets, (n - 1) as nat);
        let before = deletions(paths, targets, (n - 1) as nat);
        if targets[n - 1].len() == 0 {
            assert(before.push(OperationView::Delete { path: paths[n - 1] }).drop_last()
                =~= before);
        }
    }
}

/// Whether `list` holds `text`.
pub fn has_text(list: &Vec<String>, text: &String) -> (found: bool)
    ensures
        found == texts(list@).contains(text@),
{
    let mut i: usize = 0;
    while i < list.len()
        invariant
            i <= list.len(),
            forall|j: int| 0 <= j < i ==> texts(list@)[j] != text@,
        decreases list.len() - i,
    {
        if list[i] == *text {
            assert(texts(list@)[i as int] == text@);
            return true;
        }
        i = i + 1;
    }
    false
}

/// The operations for one entry that has targets.
pub fn step_for(source: &String, targets: &Vec<String>) -> (operations: Vec<Operation>)
    ensures
        operation_views(operations@) == step(source@, texts(targets@)),
{
    let mut operations: Vec<Operation> = Vec::new();
    let ghost wanted = texts(targets@);
    if targets.len() == 0 {
        assert(operation_views(operations@) =~= step(source@, wanted));
        return operations;
    }
    if targets.len() == 1 {
        if targets[0] != *source {
            operations.push(Operation::Move { from: source.clone(), to: targets[0].clone() });
        }
        assert(wanted[0] == targets@[0]@);
        assert(operation_views(operations@) =~= step(source@, wanted));
        return operations;
    }
    let mut i: usize = 0;
    assert(wanted.take(0) =~= Seq::<Seq<char>>::empty());
    while i < targets.len()
        invariant
            i <= targets.len(),
            wanted == texts(targets@),
            operation_views(operations@) == copies(source@, wanted.take(i as int)),
        decreases targets.len() - i,
    {
        proof {
            assert(wanted.take(i + 1).drop_last() =~= wanted.take(i as int));
            assert(wanted.take(i + 1).last() == targets@[i as int]@);
        }
        if targets[i] != *source {
            let ghost before = operation_views(operations@);
            operations.push(Operation::Copy { from: source.clone(), to: targets[i].clone() });
            assert(operation_views(operations@) =~= before.push(
                OperationView::Copy { from: source@, to: targets@[i as int]@ },
            ));
        }
        i = i + 1;
    }
    assert(wanted.take(i as int) =~= wanted);
    if !has_text(targets, source) {
        let ghost before = operation_views(operations@);
        operations.push(Operation::Delete { path: source.clone() });
        assert(operation_views(operations@) =~= before.push(
            OperationView::Delete { path: source@ },
        ));
    }
    operations
}

/// The changes that were worked out, with the counts that are reported.
#[derive(Debug, PartialEq, Eq)]
pub struct Plan {
    /// The operations, in the order in which they are to be performed.
    pub operations: Vec<Operation>,
    /// How many entries are deleted because nothing names them. The deletion
    /// that follows the copies of an entry is not among them.
    pub deleted: usize,
    /// How many copies are made.
    pub copied: usize,
}

/// The deletions of the entries that have no target.
pub fn deletes_from(paths: &Vec<String>, targets: &Vec<Vec<String>>) -> (operations: Vec<
    Operation,
>)
    requires
        paths.len() == targets.len(),
    ensures
        operation_views(operations@) == deletions(
            texts(paths@),
            target_texts(targets@),
            paths.len() as nat,
        ),
{
    let mut operations: Vec<Operation> = Vec::new();
    let mut i: usize = 0;
    while i < paths.len()
        invariant
            i <= paths.len(),
            paths.len() == targets.len(),
            operation_views(operations@) == deletions(
                texts(paths@),
                target_texts(targets@),
                i as nat,
            ),
        decreases paths.len() - i,
    {
        proof {
            assert(target_texts(targets@)[i as int] == texts(targets@[i as int]@));
            assert(texts(paths@)[i as int] == paths@[i as int]@);
        }
        if targets[i].len() == 0 {
            let ghost before = operation_views(operations@);
            operations.push(Operation::Delete { path: paths[i].clone() });
            assert(operation_views(operations@) =~= before.push(
                OperationView::Delete { path: paths@[i as int]@ },
            ));
        }
        i = i + 1;
    }
    operations
}

/// The moves and copies of the entries that have targets, with the deletions
/// that follow copies.
pub fn copies_from(paths: &Vec<String>, targets: &Vec<Vec<String>>) -> (operations: Vec<
    Operation,
>)
    requires
        paths.len() == targets.len(),
    ensures
        operation_views(operations@) == changes(
            texts(paths@),
            target_texts(targets@),
            paths.len() as nat,
        ),
{
    let mut operations: Vec<Operation> = Vec::new();
    let mut i: usize = 0;
    while i < paths.len()
        invariant
            i <= paths.len(),
            paths.len() == targets.len(),
            operation_views(operations@) == changes(
                texts(paths@),
                target_texts(targets@),
                i as nat,
            ),
        decreases paths.len() - i,
    {
        proof {
            assert(target_texts(targets@)[i as int] == texts(targets@[i as int]@));
            assert(texts(paths@)[i as int] == paths@[i as int]@);
        }
        let ghost before = operation_views(operations@);
        let mut more = step_for(&paths[i], &targets[i]);
        let ghost added = operation_views(more@);
        operations.append(&mut more);
        assert(operation_views(operations@) =~= before + added);
        i = i + 1;
    }
    operations
}

/// Counts the copies among `operations`.
pub fn count_copies(operations: &Vec<Operation>) -> (count: usize)
    ensures
        count == copies_among(operation_views(operations@)),
{
    let mut count: usize = 0;
    let mut i: usize = 0;
    let ghost all = operation_views(operations@);
    assert(all.take(0) =~= Seq::<OperationView>::empty());
    while i < operations.len()
        invariant
            i <= operations.len(),
            all == operation_views(operations@),
            count == copies_among(all.take(i as int)),
            count <= i,
        decreases operations.len() - i,
    {
        proof {
            assert(all.take(i + 1).drop_last() =~= all.take(i as int));
            assert(all.take(i + 1).last() == operations@[i as int]@);
        }
        match &operations[i] {
            Operation::Copy { .. } => {
                count = count + 1;
            },
            _ => {},
        }
        i = i + 1;
    }
    assert(all.take(i as int) =~= all);
    count
}

/// Works out what is to be done for the entries `paths`, of which entry `i`
/// is to end up at each of `targets[i]`. Targets are not held against each
/// other, nor against the paths of other entries.
pub fn plan_operations(paths: &Vec<String>, targets: &Vec<Vec<String>>) -> (plan: Plan)
    requires
        paths.len() == targets.len(),
    ensures
        operation_views(plan.operations@) == planned(texts(paths@), target_texts(targets@)),
        plan.deleted == deletions(
            texts(paths@),
            target_texts(targets@),
            paths.len() as nat,
        ).len(),
        plan.copied == copies_among(planned(texts(paths@), target_texts(targets@))),
{
    let mut operations = deletes_from(paths, targets);
    let deleted = operations.len();
    let mut others = copies_from(paths, targets);
    let copied = count_copies(&others);
    let ghost first = operation_views(operations@);
    let ghost second = operation_views(others@);
    operations.append(&mut others);
    proof {
        assert(operation_views(operations@) =~= first + second);
        lemma_copies_among_concat(first, second);
        lemma_deletions_hold_no_copy(
            texts(paths@),
            target_texts(targets@),
            paths.len() as nat,
        );
    }
    Plan { operations, deleted, copied }
}

} // verus!
