use crate::dirops::{removal_of, FileKind};
use crate::error::ErrorView;
use crate::keyedbag::values_in;
use crate::plan::{changes, copies, deletions, planned, step, OperationView};
use crate::plan_lemmas::{
    carries, lemma_copies, lemma_deletions_extend, lemma_nothing_asked_nothing_done,
    lemma_step_stands_in_plan, place_of_step,
};
use vstd::prelude::*;

verus! {

/// What an operation leaves of the files `files`, a map from each path that
/// exists to what is stored there, where the operation does what it is
/// meant to do: a deletion takes the path away, a move takes the source away
/// and puts what it held at the target, a copy puts it at the target too.
pub open spec fn after<C>(files: Map<Seq<char>, C>, operation: OperationView) -> Map<
    Seq<char>,
    C,
> {
    match operation {
        OperationView::Delete { path } => files.remove(path),
        OperationView::Move { from, to } => files.remove(from).insert(to, files[from]),
        OperationView::Copy { from, to } => files.insert(to, files[from]),
    }
}

/// What `operations`, carried out one after the other, leave of `files`.
pub open spec fn after_all<C>(files: Map<Seq<char>, C>, operations: Seq<OperationView>) -> Map<
    Seq<char>,
    C,
>
    decreases operations.len(),
{
    if operations.len() == 0 {
        files
    } else {
        after(after_all(files, operations.drop_last()), operations.last())
    }
}

/// Some entry has `path` among its targets.
pub open spec fn is_target(targets: Seq<Seq<Seq<char>>>, path: Seq<char>) -> bool {
    exists|i: int| 0 <= i < targets.len() && #[trigger] targets[i].contains(path)
}

/// An entry that has `path` among its targets.
pub open spec fn source_of(targets: Seq<Seq<Seq<char>>>, path: Seq<char>) -> int {
    choose|i: int| 0 <= i < targets.len() && #[trigger] targets[i].contains(path)
}

/// The files that the instructions ask for: at each target stands what its
/// entry held, the entries that are not among their own targets are gone,
/// and everything else is as it was.
pub open spec fn wanted<C>(
    files: Map<Seq<char>, C>,
    paths: Seq<Seq<char>>,
    targets: Seq<Seq<Seq<char>>>,
) -> Map<Seq<char>, C> {
    Map::new(
        |path: Seq<char>|
            is_target(targets, path) || (files.contains_key(path) && !paths.contains(path)),
        |path: Seq<char>|
            if is_target(targets, path) {
                files[paths[source_of(targets, path)]]
            } else {
                files[path]
            },
    )
}

/// The instructions can be followed on `files` without one operation
/// meeting what another left: every entry exists and no two are the same,
/// no two entries have a target in common, and no entry has another entry
/// as a target.
pub open spec fn can_be_followed<C>(
    files: Map<Seq<char>, C>,
    paths: Seq<Seq<char>>,
    targets: Seq<Seq<Seq<char>>>,
) -> bool {
    &&& paths.len() == targets.len()
    &&& paths.no_duplicates()
    &&& forall|i: int| 0 <= i < paths.len() ==> files.contains_key(#[trigger] paths[i])
    &&& forall|i: int, j: int, path: Seq<char>|
        #![trigger targets[i].contains(path), targets[j].contains(path)]
        0 <= i < targets.len() && 0 <= j < targets.len() && targets[i].contains(path)
            && targets[j].contains(path) ==> i == j
    &&& forall|i: int, j: int|
        0 <= i < targets.len() && 0 <= j < paths.len() && #[trigger] targets[i].contains(
            paths[j],
        ) ==> i == j
}

/// Operations that are carried out one after the other can be carried out
/// in two parts.
pub proof fn lemma_after_all_concat<C>(
    files: Map<Seq<char>, C>,
    first: Seq<OperationView>,
    second: Seq<OperationView>,
)
    ensures
        after_all(files, first + second) == after_all(after_all(files, first), second),
    decreases second.len(),
{
    if second.len() == 0 {
        assert(first + second =~= first);
    } else {
        lemma_after_all_concat(files, first, second.drop_last());
        assert((first + second).drop_last() =~= first + second.drop_last());
    }
}

/// The files after the entries without target among the first `n` are
/// deleted.
pub open spec fn thinned<C>(
    files: Map<Seq<char>, C>,
    paths: Seq<Seq<char>>,
    targets: Seq<Seq<Seq<char>>>,
    n: nat,
) -> Map<Seq<char>, C> {
    Map::new(
        |path: Seq<char>|
            files.contains_key(path) && !(exists|i: int|
                0 <= i < n && #[trigger] paths[i] == path && targets[i].len() == 0),
        |path: Seq<char>| files[path],
    )
}

/// The deletions take away the entries without target, and nothing else.
pub proof fn lemma_after_deletions<C>(
    files: Map<Seq<char>, C>,
    paths: Seq<Seq<char>>,
    targets: Seq<Seq<Seq<char>>>,
    n: nat,
)
    requires
        n <= paths.len(),
        paths.len() == targets.len(),
    ensures
        after_all(files, deletions(paths, targets, n)) == thinned(files, paths, targets, n),
    decreases n,
{
    if n == 0 {
        assert(thinned(files, paths, targets, n) =~= files);
    } else {
        let m = (n - 1) as nat;
        lemma_after_deletions(files, paths, targets, m);
        let before = deletions(paths, targets, m);
        if targets[n - 1].len() == 0 {
            let all = before.push(OperationView::Delete { path: paths[n - 1] });
            assert(all.drop_last() =~= before);
            assert(thinned(files, paths, targets, m).remove(paths[n - 1]) =~= thinned(
                files,
                paths,
                targets,
                n,
            )) by {
                assert forall|path: Seq<char>|
                    thinned(files, paths, targets, n).contains_key(path) <==> thinned(
                        files,
                        paths,
                        targets,
                        m,
                    ).remove(paths[n - 1]).contains_key(path) by {
                    if files.contains_key(path) {
                        if exists|i: int|
                            0 <= i < n && #[trigger] paths[i] == path && targets[i].len() == 0 {
                            let i = choose|i: int|
                                0 <= i < n && #[trigger] paths[i] == path && targets[i].len() == 0;
                            if i < m {
                                assert(paths[i] == path);
                            }
                        }
                        if path == paths[n - 1] {
                            assert(paths[n - 1] == path && targets[n - 1].len() == 0);
                        }
                    }
                }
            }
        } else {
            assert(thinned(files, paths, targets, m) =~= thinned(files, paths, targets, n)) by {
                assert forall|path: Seq<char>|
                    thinned(files, paths, targets, n).contains_key(path) <==> thinned(
                        files,
                        paths,
                        targets,
                        m,
                    ).contains_key(path) by {
                    if exists|i: int|
                        0 <= i < n && #[trigger] paths[i] == path && targets[i].len() == 0 {
                        let i = choose|i: int|
                            0 <= i < n && #[trigger] paths[i] == path && targets[i].len() == 0;
                        assert(i < m);
                    }
                }
            }
        }
    }
}

/// One of the first `k` entries has `path` among its targets.
pub open spec fn is_target_below(targets: Seq<Seq<Seq<char>>>, path: Seq<char>, k: nat) -> bool {
    exists|i: int| 0 <= i < k && #[trigger] targets[i].contains(path)
}

/// One of the first `k` entries that has `path` among its targets.
pub open spec fn source_below(targets: Seq<Seq<Seq<char>>>, path: Seq<char>, k: nat) -> int {
    choose|i: int| 0 <= i < k && #[trigger] targets[i].contains(path)
}

/// `path` is an entry that has left its place once the first `k` entries
/// are dealt with: it has no target, or it is one of the first `k`.
pub open spec fn has_left(
    paths: Seq<Seq<char>>,
    targets: Seq<Seq<Seq<char>>>,
    path: Seq<char>,
    k: nat,
) -> bool {
    exists|i: int|
        0 <= i < paths.len() && #[trigger] paths[i] == path && (targets[i].len() == 0 || i < k)
}

/// The files once the entries without target are deleted and the first `k`
/// entries are moved or copied.
pub open spec fn partly<C>(
    files: Map<Seq<char>, C>,
    paths: Seq<Seq<char>>,
    targets: Seq<Seq<Seq<char>>>,
    k: nat,
) -> Map<Seq<char>, C> {
    Map::new(
        |path: Seq<char>|
            is_target_below(targets, path, k) || (files.contains_key(path) && !has_left(
                paths,
                targets,
                path,
                k,
            )),
        |path: Seq<char>|
            if is_target_below(targets, path, k) {
                files[paths[source_below(targets, path, k)]]
            } else {
                files[path]
            },
    )
}

/// `files` with what stands at `source` put at each of the first `n` of
/// `targets` but at `source` itself.
pub open spec fn with_copies<C>(
    files: Map<Seq<char>, C>,
    source: Seq<char>,
    targets: Seq<Seq<char>>,
    n: nat,
) -> Map<Seq<char>, C> {
    Map::new(
        |path: Seq<char>|
            files.contains_key(path) || (path != source && targets.take(n as int).contains(path)),
        |path: Seq<char>|
            if path != source && targets.take(n as int).contains(path) {
                files[source]
            } else {
                files[path]
            },
    )
}

/// The copies of an entry put what it holds at each target but at itself.
pub proof fn lemma_after_copies<C>(
    files: Map<Seq<char>, C>,
    source: Seq<char>,
    targets: Seq<Seq<char>>,
    n: nat,
)
    requires
        n <= targets.len(),
        files.contains_key(source),
    ensures
        after_all(files, copies(source, targets.take(n as int))) == with_copies(
            files,
            source,
            targets,
            n,
        ),
    decreases n,
{
    let upto = targets.take(n as int);
    if n == 0 {
        assert(with_copies(files, source, targets, n) =~= files);
    } else {
        let m = (n - 1) as nat;
        lemma_after_copies(files, source, targets, m);
        assert(upto.drop_last() =~= targets.take(m as int));
        let before = with_copies(files, source, targets, m);
        let shorter = targets.take(m as int);
        assert forall|path: Seq<char>| upto.contains(path) <==> shorter.contains(path) || path
            == upto.last() by {
            if upto.contains(path) {
                let l = choose|l: int| 0 <= l < upto.len() && upto[l] == path;
                if l < m {
                    assert(shorter[l] == path);
                }
            }
            if shorter.contains(path) {
                let l = choose|l: int| 0 <= l < shorter.len() && shorter[l] == path;
                assert(upto[l] == path);
            }
            if path == upto.last() {
                assert(upto[upto.len() - 1] == path);
            }
        }
        if upto.last() == source {
            assert(with_copies(files, source, targets, n) =~= before);
        } else {
            let made = copies(source, shorter).push(
                OperationView::Copy { from: source, to: upto.last() },
            );
            assert(made.drop_last() =~= copies(source, shorter));
            assert(before[source] == files[source]);
            assert(with_copies(files, source, targets, n) =~= before.insert(
                upto.last(),
                before[source],
            ));
        }
    }
}

/// What changes when one entry more is dealt with: its targets are targets
/// then, of which it is the source, it has left its place, and it was
/// untouched until then if it has a target.
proof fn lemma_one_entry_more<C>(
    files: Map<Seq<char>, C>,
    paths: Seq<Seq<char>>,
    targets: Seq<Seq<Seq<char>>>,
    k: nat,
)
    requires
        can_be_followed(files, paths, targets),
        k < paths.len(),
    ensures
        forall|path: Seq<char>|
            is_target_below(targets, path, k + 1) <==> is_target_below(targets, path, k)
                || #[trigger] targets[k as int].contains(path),
        forall|path: Seq<char>|
            #[trigger] has_left(paths, targets, path, k + 1) <==> has_left(paths, targets, path, k)
                || path == paths[k as int],
        forall|path: Seq<char>|
            #[trigger] targets[k as int].contains(path) ==> source_below(targets, path, k + 1) == k
                && !is_target_below(targets, path, k),
        forall|path: Seq<char>|
            #[trigger] is_target_below(targets, path, k) ==> source_below(targets, path, k + 1)
                == source_below(targets, path, k),
        targets[k as int].len() > 0 ==> !is_target_below(targets, paths[k as int], k) && !has_left(
            paths,
            targets,
            paths[k as int],
            k,
        ),
{
    let own = targets[k as int];
    let source = paths[k as int];
    assert forall|path: Seq<char>|
        is_target_below(targets, path, k + 1) <==> is_target_below(targets, path, k)
            || #[trigger] own.contains(path) by {
        if is_target_below(targets, path, k + 1) {
            let i = choose|i: int| 0 <= i < k + 1 && #[trigger] targets[i].contains(path);
            if i < k {
                assert(targets[i].contains(path));
            }
        }
        if is_target_below(targets, path, k) {
            let i = choose|i: int| 0 <= i < k && #[trigger] targets[i].contains(path);
            assert(targets[i].contains(path));
        }
        if own.contains(path) {
            assert(targets[k as int].contains(path));
        }
    }
    assert forall|path: Seq<char>| #[trigger]
        has_left(paths, targets, path, k + 1) <==> has_left(paths, targets, path, k) || path
            == source by {
        if has_left(paths, targets, path, k + 1) {
            let i = choose|i: int|
                0 <= i < paths.len() && #[trigger] paths[i] == path && (targets[i].len() == 0 || i
                    < k + 1);
            if i != k {
                assert(paths[i] == path && (targets[i].len() == 0 || i < k));
            }
        }
        if has_left(paths, targets, path, k) {
            let i = choose|i: int|
                0 <= i < paths.len() && #[trigger] paths[i] == path && (targets[i].len() == 0 || i
                    < k);
            assert(paths[i] == path && (targets[i].len() == 0 || i < k + 1));
        }
        if path == source {
            assert(paths[k as int] == path && (targets[k as int].len() == 0 || k < k + 1));
        }
    }
    assert forall|path: Seq<char>| #[trigger] own.contains(path) implies source_below(
        targets,
        path,
        k + 1,
    ) == k && !is_target_below(targets, path, k) by {
        assert(targets[k as int].contains(path));
        let i = source_below(targets, path, k + 1);
        assert(0 <= i < k + 1 && targets[i].contains(path));
        if is_target_below(targets, path, k) {
            let j = choose|j: int| 0 <= j < k && #[trigger] targets[j].contains(path);
            assert(targets[j].contains(path));
        }
    }
    assert forall|path: Seq<char>| #[trigger]
        is_target_below(targets, path, k) implies source_below(targets, path, k + 1)
        == source_below(targets, path, k) by {
        let j = source_below(targets, path, k);
        assert(0 <= j < k && targets[j].contains(path));
        let i = source_below(targets, path, k + 1);
        assert(0 <= i < k + 1 && targets[i].contains(path));
    }
    if own.len() > 0 {
        if is_target_below(targets, source, k) {
            let j = choose|j: int| 0 <= j < k && #[trigger] targets[j].contains(source);
            assert(targets[j].contains(paths[k as int]));
        }
        if has_left(paths, targets, source, k) {
            let i = choose|i: int|
                0 <= i < paths.len() && #[trigger] paths[i] == source && (targets[i].len() == 0
                    || i < k);
            assert(i == k);
        }
    }
}

/// The operations for one entry take the files from where the entries
/// before it have left them to where it leaves them.
proof fn lemma_after_step<C>(
    files: Map<Seq<char>, C>,
    paths: Seq<Seq<char>>,
    targets: Seq<Seq<Seq<char>>>,
    k: nat,
)
    requires
        can_be_followed(files, paths, targets),
        k < paths.len(),
    ensures
        after_all(partly(files, paths, targets, k), step(paths[k as int], targets[k as int]))
            == partly(files, paths, targets, k + 1),
{
    let own = targets[k as int];
    let source = paths[k as int];
    let before = partly(files, paths, targets, k);
    let wanted = partly(files, paths, targets, k + 1);
    lemma_one_entry_more(files, paths, targets, k);
    assert(files.contains_key(paths[k as int]));
    if own.len() == 0 {
        assert(wanted =~= before);
    } else if own.len() == 1 {
        let target = own[0];
        assert(own.contains(target));
        assert forall|path: Seq<char>| own.contains(path) <==> path == target by {
            if own.contains(path) {
                let l = choose|l: int| 0 <= l < own.len() && own[l] == path;
            }
        }
        assert(before.contains_key(source) && before[source] == files[source]);
        if target == source {
            assert(wanted =~= before);
        } else {
            let moved = seq![OperationView::Move { from: source, to: target }];
            assert(moved.drop_last() =~= Seq::<OperationView>::empty());
            assert(after_all(before, moved.drop_last()) == before);
            assert(after_all(before, moved) == before.remove(source).insert(
                target,
                before[source],
            ));
            assert(wanted =~= before.remove(source).insert(target, before[source]));
        }
    } else {
        assert(before.contains_key(source) && before[source] == files[source]);
        assert(own.take(own.len() as int) =~= own);
        lemma_after_copies(before, source, own, own.len());
        let copied = with_copies(before, source, own, own.len());
        if own.contains(source) {
            assert(wanted =~= copied);
        } else {
            let all = copies(source, own).push(OperationView::Delete { path: source });
            assert(all.drop_last() =~= copies(source, own));
            assert(wanted =~= copied.remove(source));
        }
    }
}

/// Followed on files on which they can be followed, the planned operations
/// leave the files that the instructions ask for: what an entry held stands
/// at each of its targets, an entry that is not among its own targets is
/// gone, and nothing else has changed.
pub proof fn lemma_plan_leaves_what_was_asked<C>(
    files: Map<Seq<char>, C>,
    paths: Seq<Seq<char>>,
    targets: Seq<Seq<Seq<char>>>,
)
    requires
        can_be_followed(files, paths, targets),
    ensures
        after_all(files, planned(paths, targets)) == wanted(files, paths, targets),
{
    let n = paths.len();
    lemma_after_all_concat(files, deletions(paths, targets, n), changes(paths, targets, n));
    lemma_after_deletions(files, paths, targets, n);
    lemma_after_changes(files, paths, targets, n);
    assert(partly(files, paths, targets, n) =~= wanted(files, paths, targets)) by {
        assert forall|path: Seq<char>|
            is_target_below(targets, path, n) <==> is_target(targets, path) by {
            if is_target_below(targets, path, n) {
                let i = choose|i: int| 0 <= i < n && #[trigger] targets[i].contains(path);
                assert(targets[i].contains(path));
            }
            if is_target(targets, path) {
                let i = choose|i: int| 0 <= i < targets.len() && #[trigger] targets[i].contains(path);
                assert(targets[i].contains(path));
            }
        }
        assert forall|path: Seq<char>| has_left(paths, targets, path, n) <==> paths.contains(
            path,
        ) by {
            if has_left(paths, targets, path, n) {
                let i = choose|i: int|
                    0 <= i < paths.len() && #[trigger] paths[i] == path && (targets[i].len() == 0
                        || i < n);
                assert(paths[i] == path);
            }
            if paths.contains(path) {
                let i = choose|i: int| 0 <= i < paths.len() && paths[i] == path;
                assert(paths[i] == path && (targets[i].len() == 0 || i < n));
            }
        }
    }
}

/// The moves and copies of the first `k` entries take the files from where
/// the deletions have left them to where these entries leave them.
proof fn lemma_after_changes<C>(
    files: Map<Seq<char>, C>,
    paths: Seq<Seq<char>>,
    targets: Seq<Seq<Seq<char>>>,
    k: nat,
)
    requires
        can_be_followed(files, paths, targets),
        k <= paths.len(),
    ensures
        after_all(thinned(files, paths, targets, paths.len()), changes(paths, targets, k))
            == partly(files, paths, targets, k),
    decreases k,
{
    let start = thinned(files, paths, targets, paths.len());
    if k == 0 {
        assert(partly(files, paths, targets, 0) =~= start) by {
            assert forall|path: Seq<char>| has_left(paths, targets, path, 0) <==> (exists|i: int|
                0 <= i < paths.len() && #[trigger] paths[i] == path && targets[i].len() == 0) by {
                if has_left(paths, targets, path, 0) {
                    let i = choose|i: int|
                        0 <= i < paths.len() && #[trigger] paths[i] == path && (targets[i].len()
                            == 0 || i < 0);
                    assert(paths[i] == path && targets[i].len() == 0);
                }
                if exists|i: int|
                    0 <= i < paths.len() && #[trigger] paths[i] == path && targets[i].len() == 0 {
                    let i = choose|i: int|
                        0 <= i < paths.len() && #[trigger] paths[i] == path && targets[i].len()
                            == 0;
                    assert(paths[i] == path && (targets[i].len() == 0 || i < 0));
                }
            }
        }
    } else {
        let m = (k - 1) as nat;
        lemma_after_changes(files, paths, targets, m);
        lemma_after_all_concat(
            start,
            changes(paths, targets, m),
            step(paths[m as int], targets[m as int]),
        );
        lemma_after_step(files, paths, targets, m);
    }
}

/// `operation` puts something at `path`.
pub open spec fn puts_at(operation: OperationView, path: Seq<char>) -> bool {
    match operation {
        OperationView::Delete { .. } => false,
        OperationView::Move { from, to } => to == path,
        OperationView::Copy { from, to } => to == path,
    }
}

/// `operation` takes away what stands at `path`.
pub open spec fn takes_from(operation: OperationView, path: Seq<char>) -> bool {
    match operation {
        OperationView::Delete { path: gone } => gone == path,
        OperationView::Move { from, to } => from == path && to != path,
        OperationView::Copy { .. } => false,
    }
}

/// `operation` puts at `target` what stands at `source`.
pub open spec fn brings(operation: OperationView, source: Seq<char>, target: Seq<char>) -> bool {
    operation == (OperationView::Move { from: source, to: target }) || operation
        == (OperationView::Copy { from: source, to: target })
}

/// Operations of which none puts anything at a path or takes it away leave
/// what stands there.
pub proof fn lemma_untouched<C>(
    files: Map<Seq<char>, C>,
    operations: Seq<OperationView>,
    path: Seq<char>,
)
    requires
        forall|k: int|
            0 <= k < operations.len() ==> !puts_at(#[trigger] operations[k], path) && !takes_from(
                operations[k],
                path,
            ),
    ensures
        after_all(files, operations).contains_key(path) == files.contains_key(path),
        files.contains_key(path) ==> after_all(files, operations)[path] == files[path],
    decreases operations.len(),
{
    if operations.len() > 0 {
        let shorter = operations.drop_last();
        assert forall|k: int| 0 <= k < shorter.len() implies !puts_at(
            #[trigger] shorter[k],
            path,
        ) && !takes_from(shorter[k], path) by {
            assert(shorter[k] == operations[k]);
        }
        lemma_untouched(files, shorter, path);
        assert(!puts_at(operations[operations.len() - 1], path));
    }
}

/// Operations of which one takes a path away and none puts anything there
/// leave nothing at it.
pub proof fn lemma_taken<C>(
    files: Map<Seq<char>, C>,
    operations: Seq<OperationView>,
    path: Seq<char>,
)
    requires
        forall|k: int| 0 <= k < operations.len() ==> !puts_at(#[trigger] operations[k], path),
        exists|k: int| 0 <= k < operations.len() && takes_from(#[trigger] operations[k], path),
    ensures
        !after_all(files, operations).contains_key(path),
    decreases operations.len(),
{
    let shorter = operations.drop_last();
    let last = operations.last();
    assert(!puts_at(operations[operations.len() - 1], path));
    if !takes_from(last, path) {
        let k = choose|k: int|
            0 <= k < operations.len() && takes_from(#[trigger] operations[k], path);
        assert(shorter[k] == operations[k]);
        assert forall|j: int| 0 <= j < shorter.len() implies !puts_at(
            #[trigger] shorter[j],
            path,
        ) by {
            assert(shorter[j] == operations[j]);
        }
        lemma_taken(files, shorter, path);
    }
}

/// Where what stands at `source` is put at `target`, by one operation or
/// more, and nothing else is put there; where nothing is put at `source`,
/// and it is taken away no earlier than that; and where `target` is not
/// taken away: there `target` holds in the end what `source` held first.
pub proof fn lemma_brought<C>(
    files: Map<Seq<char>, C>,
    operations: Seq<OperationView>,
    source: Seq<char>,
    target: Seq<char>,
)
    requires
        source != target,
        files.contains_key(source),
        exists|k: int| 0 <= k < operations.len() && puts_at(#[trigger] operations[k], target),
        forall|k: int|
            0 <= k < operations.len() && puts_at(#[trigger] operations[k], target) ==> brings(
                operations[k],
                source,
                target,
            ),
        forall|k: int|
            0 <= k < operations.len() ==> !takes_from(#[trigger] operations[k], target) && !puts_at(
                operations[k],
                source,
            ),
        forall|j: int, k: int|
            0 <= j < operations.len() && 0 <= k < operations.len() && takes_from(
                #[trigger] operations[j],
                source,
            ) && puts_at(#[trigger] operations[k], target) ==> k <= j,
    ensures
        after_all(files, operations).contains_key(target),
        after_all(files, operations)[target] == files[source],
    decreases operations.len(),
{
    let shorter = operations.drop_last();
    let last = operations.last();
    let end = operations.len() - 1;
    assert(operations[end] == last);
    assert forall|k: int| 0 <= k < shorter.len() implies #[trigger] shorter[k]
        == operations[k] by {}
    if puts_at(last, target) {
        assert(brings(operations[end], source, target));
        assert forall|k: int| 0 <= k < shorter.len() implies !puts_at(
            #[trigger] shorter[k],
            source,
        ) && !takes_from(shorter[k], source) by {
            assert(shorter[k] == operations[k]);
            if takes_from(operations[k], source) {
                assert(puts_at(operations[end], target));
            }
        }
        lemma_untouched(files, shorter, source);
    } else {
        let k = choose|k: int|
            0 <= k < operations.len() && puts_at(#[trigger] operations[k], target);
        assert(shorter[k] == operations[k]);
        assert forall|j: int, k: int|
            0 <= j < shorter.len() && 0 <= k < shorter.len() && takes_from(
                #[trigger] shorter[j],
                source,
            ) && puts_at(#[trigger] shorter[k], target) implies k <= j by {
            assert(shorter[j] == operations[j] && shorter[k] == operations[k]);
        }
        lemma_brought(files, shorter, source, target);
        assert(!takes_from(operations[end], target));
    }
}

/// `operation` is one of those for the entry `source` with the targets
/// `own`: its deletion or its move to one of them where it is not among
/// them, or a copy of it to one of them that is not the entry itself.
pub open spec fn belongs(operation: OperationView, source: Seq<char>, own: Seq<Seq<char>>) -> bool {
    match operation {
        OperationView::Delete { path } => path == source && !own.contains(source),
        OperationView::Move { from, to } => from == source && to != source && own.contains(to)
            && !own.contains(source),
        OperationView::Copy { from, to } => from == source && to != source && own.contains(to),
    }
}

/// The operations for an entry belong to it, and none of them comes behind
/// one that takes the entry away.
pub proof fn lemma_step_belongs(source: Seq<char>, own: Seq<Seq<char>>)
    ensures
        forall|a: int|
            0 <= a < step(source, own).len() ==> belongs(
                #[trigger] step(source, own)[a],
                source,
                own,
            ),
        forall|a: int, b: int|
            0 <= a < step(source, own).len() && 0 <= b < step(source, own).len() && takes_from(
                #[trigger] step(source, own)[a],
                source,
            ) && !((#[trigger] step(source, own)[b]) is Delete) ==> b <= a,
{
    let operations = step(source, own);
    let made = copies(source, own);
    lemma_copies(source, own);
    assert forall|a: int| 0 <= a < made.len() implies (#[trigger] made[a]) is Copy && belongs(
        made[a],
        source,
        own,
    ) by {
        assert(made.contains(made[a]));
        let k = choose|k: int|
            0 <= k < own.len() && #[trigger] own[k] != source && made[a]
                == (OperationView::Copy { from: source, to: own[k] });
        assert(own.contains(own[k]));
    }
    if own.len() == 1 {
        assert(own.contains(own[0]));
        if own.contains(source) {
            let k = choose|k: int| 0 <= k < own.len() && own[k] == source;
            assert(own[0] == source);
        }
    }
    assert forall|a: int| 0 <= a < operations.len() implies belongs(
        #[trigger] operations[a],
        source,
        own,
    ) by {
        if own.len() >= 2 && a < made.len() {
            assert(operations[a] == made[a]);
        }
    }
    assert forall|a: int, b: int|
        0 <= a < operations.len() && 0 <= b < operations.len() && takes_from(
            #[trigger] operations[a],
            source,
        ) && !((#[trigger] operations[b]) is Delete) implies b <= a by {
        if own.len() >= 2 {
            if a < made.len() {
                assert(operations[a] == made[a]);
            }
            if b >= made.len() {
                assert(operations[b] is Delete);
            }
        }
    }
}

/// `operation` is the deletion of one of the first `n` entries, which has
/// no target.
pub open spec fn deletes_unnamed(
    paths: Seq<Seq<char>>,
    targets: Seq<Seq<Seq<char>>>,
    n: nat,
    operation: OperationView,
) -> bool {
    exists|j: int|
        0 <= j < n && targets[j].len() == 0 && operation == (OperationView::Delete {
            path: #[trigger] paths[j],
        })
}

/// Each of the deletions of the first pass is that of an entry without
/// target.
pub proof fn lemma_deletions_belong(paths: Seq<Seq<char>>, targets: Seq<Seq<Seq<char>>>, n: nat)
    requires
        n <= paths.len(),
        paths.len() == targets.len(),
    ensures
        forall|k: int|
            0 <= k < deletions(paths, targets, n).len() ==> deletes_unnamed(
                paths,
                targets,
                n,
                #[trigger] deletions(paths, targets, n)[k],
            ),
    decreases n,
{
    if n > 0 {
        let m = (n - 1) as nat;
        lemma_deletions_belong(paths, targets, m);
        let before = deletions(paths, targets, m);
        let all = deletions(paths, targets, n);
        assert forall|k: int| 0 <= k < all.len() implies deletes_unnamed(
            paths,
            targets,
            n,
            #[trigger] all[k],
        ) by {
            if k < before.len() {
                assert(all[k] == before[k]);
                assert(deletes_unnamed(paths, targets, m, before[k]));
                let j = choose|j: int|
                    0 <= j < m && targets[j].len() == 0 && before[k] == (OperationView::Delete {
                        path: #[trigger] paths[j],
                    });
                assert(all[k] == (OperationView::Delete { path: paths[j] }));
            } else {
                assert(all[k] == (OperationView::Delete { path: paths[m as int] }));
            }
        }
    }
}

/// The operation at the place `k` among the moves and copies of the first
/// `n` entries is one of those for the entry `j`, at its place among them.
pub open spec fn stands_in_step(
    paths: Seq<Seq<char>>,
    targets: Seq<Seq<Seq<char>>>,
    n: nat,
    k: int,
    j: int,
) -> bool {
    let begin = changes(paths, targets, j as nat).len();
    &&& 0 <= j < n
    &&& begin <= k < begin + step(paths[j], targets[j]).len()
    &&& changes(paths, targets, n)[k] == step(paths[j], targets[j])[k - begin]
}

/// The operation at the place `k` among the moves and copies of the first
/// `n` entries is one of those for some entry.
pub open spec fn stands_in_some_step(
    paths: Seq<Seq<char>>,
    targets: Seq<Seq<Seq<char>>>,
    n: nat,
    k: int,
) -> bool {
    exists|j: int| #[trigger] stands_in_step(paths, targets, n, k, j)
}

/// Each of the moves and copies stands among the operations for one entry.
pub proof fn lemma_changes_stand_in_steps(
    paths: Seq<Seq<char>>,
    targets: Seq<Seq<Seq<char>>>,
    n: nat,
)
    requires
        n <= paths.len(),
        paths.len() == targets.len(),
    ensures
        forall|k: int|
            0 <= k < changes(paths, targets, n).len() ==> #[trigger] stands_in_some_step(
                paths,
                targets,
                n,
                k,
            ),
    decreases n,
{
    if n > 0 {
        let m = (n - 1) as nat;
        lemma_changes_stand_in_steps(paths, targets, m);
        let before = changes(paths, targets, m);
        let all = changes(paths, targets, n);
        assert forall|k: int| 0 <= k < all.len() implies #[trigger] stands_in_some_step(
            paths,
            targets,
            n,
            k,
        ) by {
            if k < before.len() {
                assert(stands_in_some_step(paths, targets, m, k));
                let j = choose|j: int| #[trigger] stands_in_step(paths, targets, m, k, j);
                assert(all[k] == before[k]);
                assert(stands_in_step(paths, targets, n, k, j));
            } else {
                assert(stands_in_step(paths, targets, n, k, m as int));
            }
        }
    }
}

/// Some entry has `operation` among its operations.
pub open spec fn has_owner(
    paths: Seq<Seq<char>>,
    targets: Seq<Seq<Seq<char>>>,
    operation: OperationView,
) -> bool {
    exists|j: int| 0 <= j < paths.len() && belongs(operation, #[trigger] paths[j], targets[j])
}

/// Every planned operation is one of those for some entry.
pub proof fn lemma_plan_has_owners(paths: Seq<Seq<char>>, targets: Seq<Seq<Seq<char>>>)
    requires
        paths.len() == targets.len(),
    ensures
        forall|k: int|
            0 <= k < planned(paths, targets).len() ==> has_owner(
                paths,
                targets,
                #[trigger] planned(paths, targets)[k],
            ),
{
    let n = paths.len();
    let first = deletions(paths, targets, n);
    let second = changes(paths, targets, n);
    lemma_deletions_belong(paths, targets, n);
    lemma_changes_stand_in_steps(paths, targets, n);
    assert forall|k: int| 0 <= k < planned(paths, targets).len() implies has_owner(
        paths,
        targets,
        #[trigger] planned(paths, targets)[k],
    ) by {
        let operation = planned(paths, targets)[k];
        if k < first.len() {
            assert(operation == first[k]);
            assert(deletes_unnamed(paths, targets, n, first[k]));
            let j = choose|j: int|
                0 <= j < n && targets[j].len() == 0 && first[k] == (OperationView::Delete {
                    path: #[trigger] paths[j],
                });
            if targets[j].contains(paths[j]) {
                let l = choose|l: int| 0 <= l < targets[j].len() && targets[j][l] == paths[j];
            }
            assert(belongs(operation, paths[j], targets[j]));
        } else {
            let c = k - first.len();
            assert(operation == second[c]);
            assert(stands_in_some_step(paths, targets, n, c));
            let j = choose|j: int| #[trigger] stands_in_step(paths, targets, n, c, j);
            lemma_step_belongs(paths[j], targets[j]);
            assert(belongs(operation, paths[j], targets[j]));
        }
    }
}

/// After the planned operations, what is neither an entry nor a target is
/// as it was.
pub proof fn lemma_rest_is_untouched<C>(
    files: Map<Seq<char>, C>,
    paths: Seq<Seq<char>>,
    targets: Seq<Seq<Seq<char>>>,
    path: Seq<char>,
)
    requires
        paths.len() == targets.len(),
        !paths.contains(path),
        !is_target(targets, path),
    ensures
        after_all(files, planned(paths, targets)).contains_key(path) == files.contains_key(path),
        files.contains_key(path) ==> after_all(files, planned(paths, targets))[path]
            == files[path],
{
    let operations = planned(paths, targets);
    lemma_plan_has_owners(paths, targets);
    assert forall|k: int| 0 <= k < operations.len() implies !puts_at(
        #[trigger] operations[k],
        path,
    ) && !takes_from(operations[k], path) by {
        assert(has_owner(paths, targets, operations[k]));
        let j = choose|j: int|
            0 <= j < paths.len() && belongs(operations[k], #[trigger] paths[j], targets[j]);
        if puts_at(operations[k], path) {
            assert(targets[j].contains(path));
        }
        if takes_from(operations[k], path) {
            assert(paths[j] == path);
        }
    }
    lemma_untouched(files, operations, path);
}

/// After the planned operations, an entry that is not among its own targets
/// is gone, if no other entry has it as a target: one that nothing names,
/// one that was moved, and one that was copied elsewhere only.
pub proof fn lemma_entry_is_gone<C>(
    files: Map<Seq<char>, C>,
    paths: Seq<Seq<char>>,
    targets: Seq<Seq<Seq<char>>>,
    i: int,
)
    requires
        paths.len() == targets.len(),
        0 <= i < paths.len(),
        !targets[i].contains(paths[i]),
        forall|j: int| 0 <= j < targets.len() && j != i ==> !(#[trigger] targets[j]).contains(
            paths[i],
        ),
    ensures
        !after_all(files, planned(paths, targets)).contains_key(paths[i]),
{
    let operations = planned(paths, targets);
    let source = paths[i];
    let own = targets[i];
    let n = paths.len();
    assert(!is_target(targets, source)) by {
        if is_target(targets, source) {
            let j = choose|j: int| 0 <= j < targets.len() && #[trigger] targets[j].contains(source);
            assert(targets[j].contains(paths[i]));
        }
    }
    lemma_plan_has_owners(paths, targets);
    assert forall|k: int| 0 <= k < operations.len() implies !puts_at(
        #[trigger] operations[k],
        source,
    ) by {
        assert(has_owner(paths, targets, operations[k]));
        let j = choose|j: int|
            0 <= j < paths.len() && belongs(operations[k], #[trigger] paths[j], targets[j]);
        if puts_at(operations[k], source) {
            assert(targets[j].contains(source));
        }
    }
    assert(!own.contains(source)) by {
        if own.contains(source) {
            assert(targets[i].contains(source));
        }
    }
    if own.len() == 0 {
        lemma_deletion_is_planned(paths, targets, n, i);
        let k = choose|k: int|
            0 <= k < deletions(paths, targets, n).len() && #[trigger] deletions(
                paths,
                targets,
                n,
            )[k] == (OperationView::Delete { path: source });
        assert(operations[k] == (OperationView::Delete { path: source }));
        assert(takes_from(operations[k], source));
    } else {
        lemma_step_stands_in_plan(paths, targets, i as nat);
        let at = place_of_step(paths, targets, i as nat);
        let ops = step(source, own);
        let last = ops.len() - 1;
        assert(own.contains(own[0]));
        assert(ops.len() > 0 && takes_from(ops[last], source));
        assert(operations.subrange(at, at + ops.len())[last] == ops[last]);
        assert(takes_from(operations[at + last], source));
    }
    lemma_taken(files, operations, source);
}

/// The deletion of an entry without target is among those of the first
/// pass.
proof fn lemma_deletion_is_planned(
    paths: Seq<Seq<char>>,
    targets: Seq<Seq<Seq<char>>>,
    n: nat,
    i: int,
)
    requires
        0 <= i < n <= paths.len(),
        paths.len() == targets.len(),
        targets[i].len() == 0,
    ensures
        exists|k: int|
            0 <= k < deletions(paths, targets, n).len() && #[trigger] deletions(
                paths,
                targets,
                n,
            )[k] == (OperationView::Delete { path: paths[i] }),
    decreases n,
{
    let m = (n - 1) as nat;
    let before = deletions(paths, targets, m);
    let all = deletions(paths, targets, n);
    if i < m {
        lemma_deletion_is_planned(paths, targets, m, i);
        let k = choose|k: int|
            0 <= k < before.len() && #[trigger] before[k] == (OperationView::Delete {
                path: paths[i],
            });
        assert(all[k] == before[k]);
    } else {
        assert(all[all.len() - 1] == (OperationView::Delete { path: paths[i] }));
    }
}

/// After the planned operations, an entry that is among its own targets is
/// as it was, if no other entry has it as a target.
pub proof fn lemma_entry_is_kept<C>(
    files: Map<Seq<char>, C>,
    paths: Seq<Seq<char>>,
    targets: Seq<Seq<Seq<char>>>,
    i: int,
)
    requires
        paths.len() == targets.len(),
        paths.no_duplicates(),
        0 <= i < paths.len(),
        targets[i].contains(paths[i]),
        forall|j: int| 0 <= j < targets.len() && j != i ==> !(#[trigger] targets[j]).contains(
            paths[i],
        ),
    ensures
        after_all(files, planned(paths, targets)).contains_key(paths[i]) == files.contains_key(
            paths[i],
        ),
        files.contains_key(paths[i]) ==> after_all(files, planned(paths, targets))[paths[i]]
            == files[paths[i]],
{
    let operations = planned(paths, targets);
    let source = paths[i];
    lemma_plan_has_owners(paths, targets);
    assert forall|k: int| 0 <= k < operations.len() implies !puts_at(
        #[trigger] operations[k],
        source,
    ) && !takes_from(operations[k], source) by {
        assert(has_owner(paths, targets, operations[k]));
        let j = choose|j: int|
            0 <= j < paths.len() && belongs(operations[k], #[trigger] paths[j], targets[j]);
        if puts_at(operations[k], source) {
            assert(targets[j].contains(source));
        }
    }
    lemma_untouched(files, operations, source);
}

/// After the planned operations, a target of an entry holds what the entry
/// held, if the target is no entry and a target of no other entry, and if
/// no other entry has the entry itself as a target: the new place of an
/// entry that was moved, and every copy.
pub proof fn lemma_target_holds_the_entry<C>(
    files: Map<Seq<char>, C>,
    paths: Seq<Seq<char>>,
    targets: Seq<Seq<Seq<char>>>,
    i: int,
    target: Seq<char>,
)
    requires
        paths.len() == targets.len(),
        paths.no_duplicates(),
        0 <= i < paths.len(),
        files.contains_key(paths[i]),
        targets[i].contains(target),
        !paths.contains(target),
        forall|j: int| 0 <= j < targets.len() && j != i ==> !(#[trigger] targets[j]).contains(
            target,
        ) && !targets[j].contains(paths[i]),
    ensures
        after_all(files, planned(paths, targets)).contains_key(target),
        after_all(files, planned(paths, targets))[target] == files[paths[i]],
{
    let operations = planned(paths, targets);
    let source = paths[i];
    let own = targets[i];
    let n = paths.len();
    let first = deletions(paths, targets, n);
    let second = changes(paths, targets, n);
    let begin = changes(paths, targets, i as nat).len();
    let ops = step(source, own);
    assert(paths.contains(source));
    lemma_plan_has_owners(paths, targets);
    lemma_deletions_belong(paths, targets, n);
    lemma_changes_stand_in_steps(paths, targets, n);
    lemma_step_belongs(source, own);
    lemma_step_stands_in_plan(paths, targets, i as nat);
    // The entry is brought to the target by one of its own operations.
    lemma_copies(source, own);
    let l = choose|l: int| 0 <= l < own.len() && own[l] == target;
    assert(own[l] != source);
    let bringer = if own.len() == 1 {
        OperationView::Move { from: source, to: target }
    } else {
        OperationView::Copy { from: source, to: target }
    };
    assert(ops.contains(bringer)) by {
        if own.len() == 1 {
            assert(own[0] == target);
            assert(ops[0] == bringer);
        } else {
            assert(copies(source, own).contains(bringer));
            let a = choose|a: int|
                0 <= a < copies(source, own).len() && copies(source, own)[a] == bringer;
            assert(ops[a] == bringer);
        }
    }
    let b = choose|b: int| 0 <= b < ops.len() && ops[b] == bringer;
    let at = place_of_step(paths, targets, i as nat);
    assert(operations.subrange(at, at + ops.len())[b] == ops[b]);
    assert(puts_at(operations[at + b], target));
    // Whatever is put at the target is the entry, and the target stays.
    assert forall|k: int| 0 <= k < operations.len() implies (puts_at(
        #[trigger] operations[k],
        target,
    ) ==> brings(operations[k], source, target)) && !takes_from(operations[k], target)
        && !puts_at(operations[k], source) by {
        assert(has_owner(paths, targets, operations[k]));
        let j = choose|j: int|
            0 <= j < paths.len() && belongs(operations[k], #[trigger] paths[j], targets[j]);
        if puts_at(operations[k], target) {
            assert(targets[j].contains(target));
        }
        if takes_from(operations[k], target) {
            assert(paths[j] == target);
        }
        if puts_at(operations[k], source) {
            assert(targets[j].contains(source));
        }
    }
    // The entry is taken away no earlier than it is brought to the target.
    assert forall|taker: int, putter: int|
        0 <= taker < operations.len() && 0 <= putter < operations.len() && takes_from(
            #[trigger] operations[taker],
            source,
        ) && puts_at(#[trigger] operations[putter], target) implies putter <= taker by {
        if taker < first.len() {
            assert(operations[taker] == first[taker]);
            assert(deletes_unnamed(paths, targets, n, first[taker]));
            let j = choose|j: int|
                0 <= j < n && targets[j].len() == 0 && first[taker] == (OperationView::Delete {
                    path: #[trigger] paths[j],
                });
            assert(paths[j] == source);
        }
        if putter < first.len() {
            assert(operations[putter] == first[putter]);
            assert(deletes_unnamed(paths, targets, n, first[putter]));
        }
        let c = taker - first.len();
        let d = putter - first.len();
        assert(operations[taker] == second[c] && operations[putter] == second[d]);
        assert(stands_in_some_step(paths, targets, n, c));
        assert(stands_in_some_step(paths, targets, n, d));
        let j = choose|j: int| #[trigger] stands_in_step(paths, targets, n, c, j);
        lemma_step_belongs(paths[j], targets[j]);
        assert(belongs(second[c], paths[j], targets[j]));
        assert(paths[j] == source);
        let h = choose|h: int| #[trigger] stands_in_step(paths, targets, n, d, h);
        lemma_step_belongs(paths[h], targets[h]);
        assert(belongs(second[d], paths[h], targets[h]));
        assert(targets[h].contains(target));
        assert(j == i && h == i);
        assert(takes_from(ops[c - begin], source));
        assert(!(ops[d - begin] is Delete));
    }
    lemma_brought(files, operations, source, target);
}

/// What became of the files when operations were tried: the files as they
/// were left, and the refusal that ended it, if one did.
pub struct Outcome<C> {
    pub files: Map<Seq<char>, C>,
    pub refusal: Option<ErrorView>,
}

/// What `operation` leaves of `files` when it is tried, where each path
/// holds a directory or a file, as `is_directory` says of what stands there:
/// a deletion goes by `removal_of`, so that a directory is deleted only
/// where `recursive` allows it, and is refused else; a move or a copy does
/// what it is meant to do.
pub open spec fn tried<C>(
    files: Map<Seq<char>, C>,
    is_directory: spec_fn(C) -> bool,
    recursive: bool,
    operation: OperationView,
) -> Outcome<C> {
    match operation {
        OperationView::Delete { path } => {
            let kind = if is_directory(files[path]) {
                FileKind::Directory
            } else {
                FileKind::File
            };
            match removal_of(path, kind, recursive) {
                Ok(_) => Outcome { files: files.remove(path), refusal: None },
                Err(refused) => Outcome { files, refusal: Some(refused) },
            }
        },
        _ => Outcome { files: after(files, operation), refusal: None },
    }
}

/// What `operations` leave of `files` when they are tried one after the
/// other until one is refused: after a refusal nothing more is tried, and
/// what was done before it stays done.
pub open spec fn carried_out<C>(
    files: Map<Seq<char>, C>,
    is_directory: spec_fn(C) -> bool,
    recursive: bool,
    operations: Seq<OperationView>,
) -> Outcome<C>
    decreases operations.len(),
{
    if operations.len() == 0 {
        Outcome { files, refusal: None }
    } else {
        let before = carried_out(files, is_directory, recursive, operations.drop_last());
        if before.refusal is Some {
            before
        } else {
            tried(before.files, is_directory, recursive, operations.last())
        }
    }
}

/// Once an operation is refused, the operations behind it change nothing.
pub proof fn lemma_refusal_ends_it<C>(
    files: Map<Seq<char>, C>,
    is_directory: spec_fn(C) -> bool,
    recursive: bool,
    first: Seq<OperationView>,
    second: Seq<OperationView>,
)
    requires
        carried_out(files, is_directory, recursive, first).refusal is Some,
    ensures
        carried_out(files, is_directory, recursive, first + second) == carried_out(
            files,
            is_directory,
            recursive,
            first,
        ),
    decreases second.len(),
{
    if second.len() == 0 {
        assert(first + second =~= first);
    } else {
        lemma_refusal_ends_it(files, is_directory, recursive, first, second.drop_last());
        assert((first + second).drop_last() =~= first + second.drop_last());
    }
}

/// The deletions of the entries without target among the first `n` go
/// through where each of these entries exists and may be deleted: is no
/// directory, or directories may be deleted.
pub proof fn lemma_deletions_go_through<C>(
    files: Map<Seq<char>, C>,
    is_directory: spec_fn(C) -> bool,
    recursive: bool,
    paths: Seq<Seq<char>>,
    targets: Seq<Seq<Seq<char>>>,
    n: nat,
)
    requires
        n <= paths.len(),
        paths.len() == targets.len(),
        paths.no_duplicates(),
        forall|i: int|
            0 <= i < n && (#[trigger] targets[i]).len() == 0 ==> files.contains_key(paths[i]) && (
            recursive || !is_directory(files[paths[i]])),
    ensures
        carried_out(files, is_directory, recursive, deletions(paths, targets, n)) == (Outcome {
            files: thinned(files, paths, targets, n),
            refusal: None,
        }),
    decreases n,
{
    lemma_after_deletions(files, paths, targets, n);
    if n > 0 {
        let m = (n - 1) as nat;
        lemma_deletions_go_through(files, is_directory, recursive, paths, targets, m);
        lemma_after_deletions(files, paths, targets, m);
        let before = deletions(paths, targets, m);
        if targets[n - 1].len() == 0 {
            let path = paths[n - 1];
            let all = before.push(OperationView::Delete { path });
            assert(all.drop_last() =~= before);
            lemma_entry_waits(files, paths, targets, m, n - 1);
        }
    }
}

/// An entry that exists is still there, as it was, when entries before it
/// have been deleted.
proof fn lemma_entry_waits<C>(
    files: Map<Seq<char>, C>,
    paths: Seq<Seq<char>>,
    targets: Seq<Seq<Seq<char>>>,
    n: nat,
    j: int,
)
    requires
        n <= j < paths.len(),
        paths.len() == targets.len(),
        paths.no_duplicates(),
        files.contains_key(paths[j]),
    ensures
        thinned(files, paths, targets, n).contains_key(paths[j]),
        thinned(files, paths, targets, n)[paths[j]] == files[paths[j]],
{
    if exists|i: int| 0 <= i < n && #[trigger] paths[i] == paths[j] && targets[i].len() == 0 {
        let i = choose|i: int|
            0 <= i < n && #[trigger] paths[i] == paths[j] && targets[i].len() == 0;
        assert(paths[i] == paths[j]);
    }
}

/// Where directories are not to be deleted, the first entry without target
/// that is a directory ends everything: its deletion is refused, the
/// entries without target before it are deleted, and nothing else is done,
/// neither to it nor to any entry behind it.
pub proof fn lemma_refused_directory_ends_all<C>(
    files: Map<Seq<char>, C>,
    is_directory: spec_fn(C) -> bool,
    paths: Seq<Seq<char>>,
    targets: Seq<Seq<Seq<char>>>,
    j: int,
)
    requires
        paths.len() == targets.len(),
        paths.no_duplicates(),
        0 <= j < paths.len(),
        targets[j].len() == 0,
        files.contains_key(paths[j]),
        is_directory(files[paths[j]]),
        forall|i: int|
            0 <= i < j && (#[trigger] targets[i]).len() == 0 ==> files.contains_key(paths[i])
                && !is_directory(files[paths[i]]),
    ensures
        carried_out(files, is_directory, false, planned(paths, targets)) == (Outcome {
            files: thinned(files, paths, targets, j as nat),
            refusal: Some(ErrorView::RefusedNonRecursiveDelete(paths[j])),
        }),
        (forall|i: int| 0 <= i < j ==> (#[trigger] targets[i]).len() > 0) ==> thinned(
            files,
            paths,
            targets,
            j as nat,
        ) == files,
{
    let n = paths.len();
    let upto = deletions(paths, targets, j as nat);
    let with_it = deletions(paths, targets, (j + 1) as nat);
    lemma_deletions_go_through(files, is_directory, false, paths, targets, j as nat);
    lemma_entry_waits(files, paths, targets, j as nat, j);
    assert(with_it == upto.push(OperationView::Delete { path: paths[j] }));
    assert(with_it.drop_last() =~= upto);
    let stopped = Outcome {
        files: thinned(files, paths, targets, j as nat),
        refusal: Some(ErrorView::RefusedNonRecursiveDelete(paths[j])),
    };
    assert(carried_out(files, is_directory, false, with_it) == stopped);
    lemma_deletions_extend(paths, targets, (j + 1) as nat, n);
    let all = planned(paths, targets);
    assert(all =~= with_it + all.skip(with_it.len() as int)) by {
        assert(deletions(paths, targets, n).subrange(0, with_it.len() as int) == with_it);
        assert forall|k: int| 0 <= k < with_it.len() implies all[k] == with_it[k] by {
            assert(deletions(paths, targets, n).subrange(0, with_it.len() as int)[k]
                == deletions(paths, targets, n)[k]);
        }
    }
    lemma_refusal_ends_it(files, is_directory, false, with_it, all.skip(with_it.len() as int));
    if forall|i: int| 0 <= i < j ==> (#[trigger] targets[i]).len() > 0 {
        assert(thinned(files, paths, targets, j as nat) =~= files) by {
            assert forall|path: Seq<char>| files.contains_key(path) implies thinned(
                files,
                paths,
                targets,
                j as nat,
            ).contains_key(path) by {
                if exists|i: int|
                    0 <= i < j && #[trigger] paths[i] == path && targets[i].len() == 0 {
                    let i = choose|i: int|
                        0 <= i < j && #[trigger] paths[i] == path && targets[i].len() == 0;
                    assert(targets[i].len() > 0);
                }
            }
        }
    }
}

/// Where every entry has its own path as its one target, the planned
/// operations leave the files as they are.
pub proof fn lemma_nothing_asked_nothing_changed<C>(
    files: Map<Seq<char>, C>,
    paths: Seq<Seq<char>>,
    asked: Map<usize, Set<Seq<char>>>,
    targets: Seq<Seq<Seq<char>>>,
)
    requires
        paths.len() == targets.len(),
        carries(targets, asked),
        forall|i: int| 0 <= i < paths.len() ==> values_in(asked, i as usize) == set![paths[i]],
    ensures
        after_all(files, planned(paths, targets)) == files,
{
    lemma_nothing_asked_nothing_done(paths, asked, targets);
}

} // verus!
