use crate::keyedbag::values_in;
use crate::plan::{
    changes, copies, copies_among, deletions, lemma_copies_among_concat, lemma_copies_are_copies,
    lemma_deletions_hold_no_copy, planned, step, OperationView,
};
use vstd::prelude::*;

verus! {

/// `targets` lists, for each index, the targets that `asked` holds for it,
/// each once.
pub open spec fn carries(targets: Seq<Seq<Seq<char>>>, asked: Map<usize, Set<Seq<char>>>) -> bool {
    forall|i: int|
        0 <= i < targets.len() ==> (#[trigger] targets[i]).no_duplicates() && targets[i].to_set()
            == values_in(asked, i as usize)
}

/// Where in the plan the operations for the entry `i` begin.
pub open spec fn place_of_step(paths: Seq<Seq<char>>, targets: Seq<Seq<Seq<char>>>, i: nat) -> int {
    (deletions(paths, targets, paths.len()).len() + changes(paths, targets, i).len()) as int
}

/// The moves and copies of more entries begin with those of fewer.
proof fn lemma_changes_extend(paths: Seq<Seq<char>>, targets: Seq<Seq<Seq<char>>>, n: nat, m: nat)
    requires
        n <= m,
    ensures
        changes(paths, targets, n).len() <= changes(paths, targets, m).len(),
        changes(paths, targets, m).subrange(0, changes(paths, targets, n).len() as int)
            == changes(paths, targets, n),
    decreases m,
{
    if n < m {
        lemma_changes_extend(paths, targets, n, (m - 1) as nat);
        let shorter = changes(paths, targets, (m - 1) as nat);
        let longer = changes(paths, targets, m);
        assert(longer.subrange(0, changes(paths, targets, n).len() as int) =~= shorter.subrange(
            0,
            changes(paths, targets, n).len() as int,
        ));
    } else {
        assert(changes(paths, targets, m).subrange(0, changes(paths, targets, n).len() as int)
            =~= changes(paths, targets, n));
    }
}

/// The deletions among more entries begin with those among fewer.
pub proof fn lemma_deletions_extend(
    paths: Seq<Seq<char>>,
    targets: Seq<Seq<Seq<char>>>,
    n: nat,
    m: nat,
)
    requires
        n <= m,
    ensures
        deletions(paths, targets, n).len() <= deletions(paths, targets, m).len(),
        deletions(paths, targets, m).subrange(0, deletions(paths, targets, n).len() as int)
            == deletions(paths, targets, n),
    decreases m,
{
    if n < m {
        lemma_deletions_extend(paths, targets, n, (m - 1) as nat);
        let shorter = deletions(paths, targets, (m - 1) as nat);
        let longer = deletions(paths, targets, m);
        assert(longer.subrange(0, deletions(paths, targets, n).len() as int) =~= shorter.subrange(
            0,
            deletions(paths, targets, n).len() as int,
        ));
    } else {
        assert(deletions(paths, targets, m).subrange(
            0,
            deletions(paths, targets, n).len() as int,
        ) =~= deletions(paths, targets, n));
    }
}

/// The operations for each entry stand in the plan in one piece, behind all
/// deletions of entries that nothing names and behind the operations for the
/// entries before it.
pub proof fn lemma_step_stands_in_plan(
    paths: Seq<Seq<char>>,
    targets: Seq<Seq<Seq<char>>>,
    i: nat,
)
    requires
        i < paths.len(),
    ensures
        place_of_step(paths, targets, i) + step(paths[i as int], targets[i as int]).len()
            <= planned(paths, targets).len(),
        planned(paths, targets).subrange(
            place_of_step(paths, targets, i),
            place_of_step(paths, targets, i) + step(paths[i as int], targets[i as int]).len(),
        ) == step(paths[i as int], targets[i as int]),
{
    let first = deletions(paths, targets, paths.len());
    let upto = changes(paths, targets, i);
    let with_it = changes(paths, targets, i + 1);
    let all = changes(paths, targets, paths.len());
    let ops = step(paths[i as int], targets[i as int]);
    lemma_changes_extend(paths, targets, i + 1, paths.len());
    assert(with_it =~= upto + ops);
    assert(all.subrange(0, with_it.len() as int) == with_it);
    assert forall|k: int| 0 <= k < ops.len() implies planned(paths, targets)[first.len() + upto.len()
        + k] == ops[k] by {
        assert(all.subrange(0, with_it.len() as int)[upto.len() + k] == with_it[upto.len() + k]);
    }
    assert(planned(paths, targets).subrange(
        place_of_step(paths, targets, i),
        place_of_step(paths, targets, i) + ops.len(),
    ) =~= ops);
}

/// An entry that nothing names is deleted, before anything is moved or
/// copied, and nothing else is done with it.
pub proof fn lemma_unnamed_entry_is_deleted(
    paths: Seq<Seq<char>>,
    asked: Map<usize, Set<Seq<char>>>,
    targets: Seq<Seq<Seq<char>>>,
    i: nat,
)
    requires
        paths.len() == targets.len(),
        carries(targets, asked),
        i < paths.len(),
        values_in(asked, i as usize) == Set::<Seq<char>>::empty(),
    ensures
        deletions(paths, targets, i).len() < deletions(paths, targets, paths.len()).len(),
        planned(paths, targets)[deletions(paths, targets, i).len() as int]
            == (OperationView::Delete { path: paths[i as int] }),
        step(paths[i as int], targets[i as int]) == Seq::<OperationView>::empty(),
{
    let own = targets[i as int];
    assert(own.len() == 0) by {
        if own.len() > 0 {
            assert(own.to_set().contains(own[0]));
        }
    }
    lemma_deletions_extend(paths, targets, i + 1, paths.len());
    let upto = deletions(paths, targets, i);
    let with_it = deletions(paths, targets, i + 1);
    let all = deletions(paths, targets, paths.len());
    assert(with_it == upto.push(OperationView::Delete { path: paths[i as int] }));
    assert(all.subrange(0, with_it.len() as int)[upto.len() as int] == with_it[upto.len() as int]);
}

/// An entry with one target that is another path is moved there, and
/// nothing else is done with it.
pub proof fn lemma_single_target_is_move(
    paths: Seq<Seq<char>>,
    asked: Map<usize, Set<Seq<char>>>,
    targets: Seq<Seq<Seq<char>>>,
    i: nat,
    target: Seq<char>,
)
    requires
        paths.len() == targets.len(),
        carries(targets, asked),
        i < paths.len(),
        values_in(asked, i as usize) == set![target],
        target != paths[i as int],
    ensures
        step(paths[i as int], targets[i as int]) == seq![
            OperationView::Move { from: paths[i as int], to: target },
        ],
        planned(paths, targets)[place_of_step(paths, targets, i)] == (OperationView::Move {
            from: paths[i as int],
            to: target,
        }),
{
    let own = targets[i as int];
    lemma_only_target(own, target);
    lemma_step_stands_in_plan(paths, targets, i);
    let ops = step(paths[i as int], own);
    let at = place_of_step(paths, targets, i);
    assert(planned(paths, targets).subrange(at, at + ops.len())[0] == ops[0]);
}

/// A list without repetition that holds one text and no other is that text
/// alone.
proof fn lemma_only_target(own: Seq<Seq<char>>, target: Seq<char>)
    requires
        own.no_duplicates(),
        own.to_set() == set![target],
    ensures
        own == seq![target],
{
    own.unique_seq_to_set();
    assert(set![target].len() == 1);
    assert(own.to_set().contains(own[0]));
    assert(own =~= seq![target]);
}

/// An entry with its own path as its one target is left alone.
pub proof fn lemma_own_path_is_left(
    paths: Seq<Seq<char>>,
    asked: Map<usize, Set<Seq<char>>>,
    targets: Seq<Seq<Seq<char>>>,
    i: nat,
)
    requires
        paths.len() == targets.len(),
        carries(targets, asked),
        i < paths.len(),
        values_in(asked, i as usize) == set![paths[i as int]],
    ensures
        targets[i as int].len() == 1,
        step(paths[i as int], targets[i as int]) == Seq::<OperationView>::empty(),
{
    lemma_only_target(targets[i as int], paths[i as int]);
}

/// What `copies` holds: a copy to each target but the source, in the order
/// of the targets, and nothing else.
pub proof fn lemma_copies(source: Seq<char>, targets: Seq<Seq<char>>)
    ensures
        forall|operation: OperationView|
            copies(source, targets).contains(operation) <==> exists|k: int|
                0 <= k < targets.len() && #[trigger] targets[k] != source && operation
                    == (OperationView::Copy { from: source, to: targets[k] }),
        !targets.contains(source) ==> copies(source, targets) == Seq::new(
            targets.len(),
            |k: int| OperationView::Copy { from: source, to: targets[k] },
        ),
        targets.no_duplicates() && targets.contains(source) ==> copies(source, targets).len() + 1
            == targets.len(),
    decreases targets.len(),
{
    if targets.len() > 0 {
        let shorter = targets.drop_last();
        lemma_copies(source, shorter);
        let before = copies(source, shorter);
        let all = copies(source, targets);
        let last = OperationView::Copy { from: source, to: targets.last() };
        assert forall|operation: OperationView| all.contains(operation) implies exists|k: int|
            0 <= k < targets.len() && #[trigger] targets[k] != source && operation
                == (OperationView::Copy { from: source, to: targets[k] }) by {
            let j = choose|j: int| 0 <= j < all.len() && all[j] == operation;
            if j < before.len() {
                assert(before.contains(operation));
                let k = choose|k: int|
                    0 <= k < shorter.len() && #[trigger] shorter[k] != source && operation
                        == (OperationView::Copy { from: source, to: shorter[k] });
                assert(targets[k] == shorter[k]);
            } else {
                assert(targets[targets.len() - 1] != source);
            }
        }
        assert forall|operation: OperationView|
            (exists|k: int|
                0 <= k < targets.len() && #[trigger] targets[k] != source && operation
                    == (OperationView::Copy { from: source, to: targets[k] })) implies all.contains(
            operation,
        ) by {
            let k = choose|k: int|
                0 <= k < targets.len() && #[trigger] targets[k] != source && operation
                    == (OperationView::Copy { from: source, to: targets[k] });
            if k < shorter.len() {
                assert(shorter[k] == targets[k]);
                assert(before.contains(operation));
                let j = choose|j: int| 0 <= j < before.len() && before[j] == operation;
                assert(all[j] == operation);
            } else {
                assert(all[all.len() - 1] == operation);
            }
        }
        if !targets.contains(source) {
            assert(!shorter.contains(source)) by {
                if shorter.contains(source) {
                    let k = choose|k: int| 0 <= k < shorter.len() && shorter[k] == source;
                    assert(targets[k] == source);
                }
            }
            assert(targets[targets.len() - 1] != source);
            assert(all =~= Seq::new(
                targets.len(),
                |k: int| OperationView::Copy { from: source, to: targets[k] },
            ));
        }
        if targets.no_duplicates() && targets.contains(source) {
            if targets.last() == source {
                assert(!shorter.contains(source)) by {
                    if shorter.contains(source) {
                        let k = choose|k: int| 0 <= k < shorter.len() && shorter[k] == source;
                        assert(targets[k] == targets[targets.len() - 1]);
                    }
                }
                assert(before.len() == shorter.len());
            } else {
                let k = choose|k: int| 0 <= k < targets.len() && targets[k] == source;
                assert(shorter[k] == source);
                assert(shorter.contains(source));
            }
        }
    }
}

/// An entry with several targets, none of them its own path, is copied to
/// each of them and deleted after the last copy: as many copies as targets.
pub proof fn lemma_fan_out_replaces_entry(
    paths: Seq<Seq<char>>,
    asked: Map<usize, Set<Seq<char>>>,
    targets: Seq<Seq<Seq<char>>>,
    i: nat,
)
    requires
        paths.len() == targets.len(),
        carries(targets, asked),
        i < paths.len(),
        values_in(asked, i as usize).len() >= 2,
        !values_in(asked, i as usize).contains(paths[i as int]),
    ensures
        ({
            let source = paths[i as int];
            let wanted = values_in(asked, i as usize);
            let operations = step(source, targets[i as int]);
            &&& operations.len() == wanted.len() + 1
            &&& copies_among(operations) == wanted.len()
            &&& operations.last() == (OperationView::Delete { path: source })
            &&& forall|k: int|
                0 <= k < wanted.len() ==> #[trigger] operations[k] == (OperationView::Copy {
                    from: source,
                    to: targets[i as int][k],
                })
            &&& forall|target: Seq<char>|
                wanted.contains(target) ==> operations.contains(
                    OperationView::Copy { from: source, to: target },
                )
        }),
{
    let source = paths[i as int];
    let own = targets[i as int];
    let operations = step(source, own);
    own.unique_seq_to_set();
    lemma_copies(source, own);
    lemma_copies_are_copies(source, own);
    let made = copies(source, own);
    assert(operations == made.push(OperationView::Delete { path: source }));
    assert(operations.drop_last() =~= made);
    assert forall|target: Seq<char>|
        values_in(asked, i as usize).contains(target) implies operations.contains(
        OperationView::Copy { from: source, to: target },
    ) by {
        assert(own.contains(target));
        let k = choose|k: int| 0 <= k < own.len() && own[k] == target;
        assert(operations[k] == (OperationView::Copy { from: source, to: target }));
    }
}

/// An entry with several targets, its own path among them, stays where it
/// is and is copied to each of the others: one copy fewer than targets, none
/// onto the entry itself, and no deletion.
pub proof fn lemma_fan_out_keeps_entry(
    paths: Seq<Seq<char>>,
    asked: Map<usize, Set<Seq<char>>>,
    targets: Seq<Seq<Seq<char>>>,
    i: nat,
)
    requires
        paths.len() == targets.len(),
        carries(targets, asked),
        i < paths.len(),
        values_in(asked, i as usize).len() >= 2,
        values_in(asked, i as usize).contains(paths[i as int]),
    ensures
        ({
            let source = paths[i as int];
            let wanted = values_in(asked, i as usize);
            let operations = step(source, targets[i as int]);
            &&& operations.len() == wanted.len() - 1
            &&& copies_among(operations) == wanted.len() - 1
            &&& forall|k: int|
                0 <= k < operations.len() ==> (#[trigger] operations[k]) is Copy
                    && operations[k]->Copy_from == source && operations[k]->Copy_to != source
            &&& forall|target: Seq<char>|
                wanted.contains(target) && target != source ==> operations.contains(
                    OperationView::Copy { from: source, to: target },
                )
        }),
{
    let source = paths[i as int];
    let own = targets[i as int];
    let operations = step(source, own);
    own.unique_seq_to_set();
    lemma_copies(source, own);
    lemma_copies_are_copies(source, own);
    assert(own.contains(source));
    assert(operations == copies(source, own));
    assert forall|k: int| 0 <= k < operations.len() implies (#[trigger] operations[k]) is Copy
        && operations[k]->Copy_from == source && operations[k]->Copy_to != source by {
        assert(operations.contains(operations[k]));
    }
    assert forall|target: Seq<char>|
        values_in(asked, i as usize).contains(target) && target != source implies operations.contains(
        OperationView::Copy { from: source, to: target },
    ) by {
        assert(own.contains(target));
        let k = choose|k: int| 0 <= k < own.len() && own[k] == target;
        assert(own[k] != source);
    }
}

/// Where every entry has its own path as its one target, nothing is done at
/// all.
pub proof fn lemma_nothing_asked_nothing_done(
    paths: Seq<Seq<char>>,
    asked: Map<usize, Set<Seq<char>>>,
    targets: Seq<Seq<Seq<char>>>,
)
    requires
        paths.len() == targets.len(),
        carries(targets, asked),
        forall|i: int| 0 <= i < paths.len() ==> values_in(asked, i as usize) == set![paths[i]],
    ensures
        planned(paths, targets) == Seq::<OperationView>::empty(),
        deletions(paths, targets, paths.len()).len() == 0,
        copies_among(planned(paths, targets)) == 0,
{
    lemma_nothing_done_upto(paths, asked, targets, paths.len());
}

/// Where each of the first `n` entries has its own path as its one target,
/// nothing is done for them.
proof fn lemma_nothing_done_upto(
    paths: Seq<Seq<char>>,
    asked: Map<usize, Set<Seq<char>>>,
    targets: Seq<Seq<Seq<char>>>,
    n: nat,
)
    requires
        paths.len() == targets.len(),
        carries(targets, asked),
        n <= paths.len(),
        forall|i: int| 0 <= i < paths.len() ==> values_in(asked, i as usize) == set![paths[i]],
    ensures
        deletions(paths, targets, n) == Seq::<OperationView>::empty(),
        changes(paths, targets, n) == Seq::<OperationView>::empty(),
    decreases n,
{
    if n > 0 {
        lemma_nothing_done_upto(paths, asked, targets, (n - 1) as nat);
        lemma_own_path_is_left(paths, asked, targets, (n - 1) as nat);
        assert(changes(paths, targets, n) =~= Seq::<OperationView>::empty());
    }
}

/// How many copies the first `n` entries take together.
pub open spec fn copies_owed(paths: Seq<Seq<char>>, targets: Seq<Seq<Seq<char>>>, n: nat) -> nat
    decreases n,
{
    if n == 0 {
        0
    } else {
        copies_owed(paths, targets, (n - 1) as nat) + copies_among(
            step(paths[n - 1], targets[n - 1]),
        )
    }
}

/// The copies of the plan are those that the entries take, one by one.
pub proof fn lemma_copies_are_counted_by_entry(
    paths: Seq<Seq<char>>,
    targets: Seq<Seq<Seq<char>>>,
)
    ensures
        copies_among(planned(paths, targets)) == copies_owed(paths, targets, paths.len()),
{
    lemma_deletions_hold_no_copy(paths, targets, paths.len());
    lemma_copies_among_concat(
        deletions(paths, targets, paths.len()),
        changes(paths, targets, paths.len()),
    );
    lemma_changes_counted(paths, targets, paths.len());
}

/// The copies among the moves and copies of the first `n` entries.
proof fn lemma_changes_counted(paths: Seq<Seq<char>>, targets: Seq<Seq<Seq<char>>>, n: nat)
    ensures
        copies_among(changes(paths, targets, n)) == copies_owed(paths, targets, n),
    decreases n,
{
    if n > 0 {
        lemma_changes_counted(paths, targets, (n - 1) as nat);
        lemma_copies_among_concat(
            changes(paths, targets, (n - 1) as nat),
            step(paths[n - 1], targets[n - 1]),
        );
    }
}

} // verus!
