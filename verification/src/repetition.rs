//! Copying the same files a second time.
use vstd::prelude::*;

use crate::discover::EntryView;
use crate::engine::{
    lemma_every_file_has_a_result, lemma_needing_is_exact, lemma_present_files_are_skipped,
    lemma_tmp_paths_differ, needing, places, settled, skipped_result, stops, tmp_path, Phase,
    RunStep, RunView, SettlementView,
};
use crate::path::{file_name_of, is_descent, joined, stripped, PartView};

verus! {

/// The sizes of the files that there are, by path.
pub type Sizes = Map<Seq<PartView>, u64>;

/// The size of what is at a path, if anything is.
pub open spec fn size_at(sizes: Sizes, path: Seq<PartView>) -> Option<u64> {
    if sizes.dom().contains(path) {
        Some(sizes[path])
    } else {
        None
    }
}

/// What is left when the leftovers of earlier copies to `paths` are removed, one after the
/// other.
pub open spec fn without_leftovers(sizes: Sizes, paths: Seq<Seq<PartView>>) -> Sizes
    decreases paths.len(),
{
    if paths.len() == 0 {
        sizes
    } else {
        without_leftovers(sizes, paths.drop_last()).remove(tmp_path(paths.last()))
    }
}

/// What is found at `paths`, where each is looked at as soon as its own leftover was removed.
pub open spec fn observed(sizes: Sizes, paths: Seq<Seq<PartView>>) -> Seq<Option<u64>> {
    Seq::new(
        paths.len(),
        |d: int| size_at(without_leftovers(sizes, paths.take(d + 1)), paths[d]),
    )
}

/// What there is once a copy of `bytes` bytes was written for each of `dests`, under its
/// temporary path.
pub open spec fn written(sizes: Sizes, dests: Seq<Seq<PartView>>, bytes: u64) -> Sizes
    decreases dests.len(),
{
    if dests.len() == 0 {
        sizes
    } else {
        written(sizes, dests.drop_last(), bytes).insert(tmp_path(dests.last()), bytes)
    }
}

/// What there is once a temporary file was dealt with.
pub open spec fn settled_one(sizes: Sizes, step: SettlementView) -> Sizes {
    match step {
        SettlementView::Rename(from, to) => match size_at(sizes, from) {
            Some(size) => sizes.remove(from).insert(to, size),
            None => sizes,
        },
        SettlementView::SetTimes(_) => sizes,
        SettlementView::Remove(path) => sizes.remove(path),
    }
}

/// What there is once all temporary files were dealt with.
pub open spec fn settled_all(sizes: Sizes, steps: Seq<SettlementView>) -> Sizes
    decreases steps.len(),
{
    if steps.len() == 0 {
        sizes
    } else {
        settled_one(settled_all(sizes, steps.drop_last()), steps.last())
    }
}

/// A copying together with the files at its destinations, and the places that the current file
/// is being copied to.
pub struct Copying {
    pub run: RunView,
    pub sizes: Sizes,
    pub dests: Seq<Seq<PartView>>,
}

impl Copying {
    /// The copying before its first file.
    pub open spec fn start(
        files: Seq<EntryView>,
        destinations: Seq<Seq<PartView>>,
        sizes: Sizes,
    ) -> Copying {
        Copying { run: RunView::start(files, destinations), sizes, dests: Seq::empty() }
    }

    /// The places of the current file.
    pub open spec fn places(self) -> Seq<Seq<PartView>> {
        places(self.run.destinations, self.run.current().relative_path)
    }

    /// Whether a step is due, and finds what is there.
    pub open spec fn due(self, step: RunStep) -> bool {
        &&& self.run.due(step)
        &&& step matches RunStep::Probed(existing) ==> existing == observed(
            self.sizes,
            self.places(),
        )
    }

    /// The copying after a step. A failed copy is taken to remove its temporary files and to
    /// have given none of them its name; the laws below are on copies that succeed.
    pub open spec fn did(self, step: RunStep) -> Copying {
        let run = self.run.did(step);
        match step {
            RunStep::Next(_) => Copying { run, ..self },
            RunStep::Probed(existing) => Copying {
                run,
                sizes: without_leftovers(self.sizes, self.places()),
                dests: self.run.to_copy(existing),
            },
            RunStep::Copied(Ok((bytes, _))) => Copying {
                run,
                sizes: settled_all(
                    written(self.sizes, self.dests, bytes as u64),
                    settled(true, self.dests),
                ),
                ..self
            },
            RunStep::Copied(Err(_)) => Copying {
                run,
                sizes: without_leftovers(self.sizes, self.dests),
                ..self
            },
        }
    }

    /// The copying after these steps.
    pub open spec fn did_all(self, steps: Seq<RunStep>) -> Copying
        decreases steps.len(),
    {
        if steps.len() == 0 {
            self
        } else {
            self.did_all(steps.drop_last()).did(steps.last())
        }
    }

    /// Whether these steps are due, one after the other.
    pub open spec fn due_all(self, steps: Seq<RunStep>) -> bool
        decreases steps.len(),
    {
        steps.len() > 0 ==> self.due_all(steps.drop_last()) && self.did_all(steps.drop_last()).due(
            steps.last(),
        )
    }
}

/// The place of a file in a destination.
pub open spec fn place_of(
    files: Seq<EntryView>,
    destinations: Seq<Seq<PartView>>,
    i: int,
    d: int,
) -> Seq<PartView> {
    joined(destinations[d], files[i].relative_path)
}

/// Whether the copies do not get into each other's way: no place is where another copy is
/// written temporarily, a file has its own place and its own temporary path in each
/// destination, and two files share a place only if they have the same size.
pub open spec fn apart(files: Seq<EntryView>, destinations: Seq<Seq<PartView>>) -> bool {
    &&& forall|i: int, d: int, j: int, e: int|
        0 <= i < files.len() && 0 <= d < destinations.len() && 0 <= j < files.len() && 0 <= e
            < destinations.len() ==> tmp_path(#[trigger] place_of(files, destinations, i, d))
            != #[trigger] place_of(files, destinations, j, e)
    &&& forall|i: int, d: int, e: int|
        0 <= i < files.len() && 0 <= d < destinations.len() && 0 <= e < destinations.len() && d
            != e ==> {
            &&& #[trigger] place_of(files, destinations, i, d) != #[trigger] place_of(
                files,
                destinations,
                i,
                e,
            )
            &&& tmp_path(place_of(files, destinations, i, d)) != tmp_path(
                place_of(files, destinations, i, e),
            )
        }
    &&& forall|i: int, d: int, j: int, e: int|
        0 <= i < files.len() && 0 <= d < destinations.len() && 0 <= j < files.len() && 0 <= e
            < destinations.len() && #[trigger] place_of(files, destinations, i, d)
            == #[trigger] place_of(files, destinations, j, e) ==> files[i].size == files[j].size
}

/// Whether every place of the first `n` files holds a file of the right size.
pub open spec fn present(
    files: Seq<EntryView>,
    destinations: Seq<Seq<PartView>>,
    sizes: Sizes,
    n: int,
) -> bool {
    forall|i: int, d: int|
        0 <= i < n && 0 <= d < destinations.len() ==> size_at(
            sizes,
            #[trigger] place_of(files, destinations, i, d),
        ) == Some(files[i].size)
}

/// Removing leftovers touches nothing else.
proof fn lemma_leftovers(sizes: Sizes, paths: Seq<Seq<PartView>>, path: Seq<PartView>)
    requires
        forall|d: int| 0 <= d < paths.len() ==> tmp_path(#[trigger] paths[d]) != path,
    ensures
        size_at(without_leftovers(sizes, paths), path) == size_at(sizes, path),
    decreases paths.len(),
{
    if paths.len() > 0 {
        let fewer = paths.drop_last();
        assert(paths[paths.len() - 1] == paths.last());
        assert forall|d: int| 0 <= d < fewer.len() implies tmp_path(#[trigger] fewer[d])
            != path by {
            assert(fewer[d] == paths[d]);
        }
        lemma_leftovers(sizes, fewer, path);
    }
}

proof fn lemma_written(
    sizes: Sizes,
    dests: Seq<Seq<PartView>>,
    bytes: u64,
    path: Seq<PartView>,
)
    ensures
        size_at(written(sizes, dests, bytes), path) == if exists|k: int|
            0 <= k < dests.len() && tmp_path(#[trigger] dests[k]) == path {
            Some(bytes)
        } else {
            size_at(sizes, path)
        },
    decreases dests.len(),
{
    if dests.len() > 0 {
        let fewer = dests.drop_last();
        lemma_written(sizes, fewer, bytes, path);
        assert(dests[dests.len() - 1] == dests.last());
        if exists|k: int| 0 <= k < fewer.len() && tmp_path(#[trigger] fewer[k]) == path {
            let k = choose|k: int| 0 <= k < fewer.len() && tmp_path(#[trigger] fewer[k]) == path;
            assert(tmp_path(dests[k]) == path);
        } else if exists|k: int| 0 <= k < dests.len() && tmp_path(#[trigger] dests[k]) == path {
            let k = choose|k: int| 0 <= k < dests.len() && tmp_path(#[trigger] dests[k]) == path;
            if k < fewer.len() {
                assert(fewer[k] == dests[k]);
            }
        }
    }
}

/// Whether copies to all of `dests` can be written and given their names without getting into
/// each other's way.
spec fn separate(dests: Seq<Seq<PartView>>) -> bool {
    &&& dests.no_duplicates()
    &&& forall|i: int, j: int|
        0 <= i < dests.len() && 0 <= j < dests.len() ==> tmp_path(#[trigger] dests[i])
            != #[trigger] dests[j]
    &&& forall|i: int, j: int|
        0 <= i < dests.len() && 0 <= j < dests.len() && i != j ==> tmp_path(#[trigger] dests[i])
            != tmp_path(#[trigger] dests[j])
}

proof fn lemma_renamed(sizes: Sizes, dests: Seq<Seq<PartView>>, bytes: u64, n: nat)
    requires
        separate(dests),
        n <= dests.len(),
    ensures
        ({
            let now = settled_all(
                written(sizes, dests, bytes),
                settled(true, dests).take(2 * n as int),
            );
            &&& forall|k: int|
                0 <= k < n ==> size_at(now, #[trigger] dests[k]) == Some(bytes)
            &&& forall|k: int|
                n <= k < dests.len() ==> size_at(now, tmp_path(#[trigger] dests[k])) == Some(bytes)
            &&& forall|path: Seq<PartView>|
                (forall|k: int|
                    0 <= k < dests.len() ==> #[trigger] dests[k] != path && tmp_path(dests[k])
                        != path) ==> #[trigger] size_at(now, path) == size_at(sizes, path)
        }),
    decreases n,
{
    let steps = settled(true, dests);
    let begun = written(sizes, dests, bytes);
    if n == 0 {
        assert(steps.take(0) =~= Seq::empty());
        assert forall|k: int| 0 <= k < dests.len() implies size_at(
            begun,
            tmp_path(#[trigger] dests[k]),
        ) == Some(bytes) by {
            lemma_written(sizes, dests, bytes, tmp_path(dests[k]));
        }
        assert forall|path: Seq<PartView>|
            (forall|k: int|
                0 <= k < dests.len() ==> #[trigger] dests[k] != path && tmp_path(dests[k])
                    != path) implies #[trigger] size_at(begun, path) == size_at(sizes, path) by {
            lemma_written(sizes, dests, bytes, path);
        }
    } else {
        let m = (n - 1) as nat;
        let before = settled_all(begun, steps.take(2 * m as int));
        let renamed = settled_all(begun, steps.take(2 * m as int + 1));
        let now = settled_all(begun, steps.take(2 * n as int));
        let from = tmp_path(dests[m as int]);
        let to = dests[m as int];
        lemma_renamed(sizes, dests, bytes, m);
        assert(steps.take(2 * m as int + 1).drop_last() =~= steps.take(2 * m as int));
        assert(steps.take(2 * m as int + 1).last() == SettlementView::Rename(from, to));
        assert(renamed == settled_one(before, SettlementView::Rename(from, to)));
        assert(steps.take(2 * n as int).drop_last() =~= steps.take(2 * m as int + 1));
        assert(steps.take(2 * n as int).last() == SettlementView::SetTimes(to));
        assert(now == settled_one(renamed, SettlementView::SetTimes(to)));
        assert(size_at(before, from) == Some(bytes));
        assert(now == before.remove(from).insert(to, bytes));
        assert forall|k: int| 0 <= k < n implies size_at(now, #[trigger] dests[k]) == Some(
            bytes,
        ) by {
            if k < m {
                assert(size_at(before, dests[k]) == Some(bytes));
                assert(tmp_path(dests[m as int]) != dests[k]);
            }
        }
        assert forall|k: int| n <= k < dests.len() implies size_at(
            now,
            tmp_path(#[trigger] dests[k]),
        ) == Some(bytes) by {
            assert(size_at(before, tmp_path(dests[k])) == Some(bytes));
            assert(tmp_path(dests[k]) != dests[m as int]);
            assert(tmp_path(dests[k]) != tmp_path(dests[m as int]));
        }
        assert forall|path: Seq<PartView>|
            (forall|k: int|
                0 <= k < dests.len() ==> #[trigger] dests[k] != path && tmp_path(dests[k])
                    != path) implies #[trigger] size_at(now, path) == size_at(sizes, path) by {
            assert(size_at(before, path) == size_at(sizes, path));
            assert(dests[m as int] != path);
        }
    }
}

/// A copy that succeeded is at all its destinations, and nothing else has changed but temporary
/// files.
proof fn lemma_copies_are_there(
    sizes: Sizes,
    dests: Seq<Seq<PartView>>,
    bytes: u64,
    path: Seq<PartView>,
)
    requires
        separate(dests),
        forall|k: int| 0 <= k < dests.len() ==> tmp_path(#[trigger] dests[k]) != path,
    ensures
        size_at(settled_all(written(sizes, dests, bytes), settled(true, dests)), path)
            == if dests.contains(path) {
            Some(bytes)
        } else {
            size_at(sizes, path)
        },
{
    lemma_renamed(sizes, dests, bytes, dests.len());
    assert(settled(true, dests).take(2 * dests.len() as int) =~= settled(true, dests));
    if dests.contains(path) {
        let k = choose|k: int| 0 <= k < dests.len() && dests[k] == path;
        assert(size_at(
            settled_all(written(sizes, dests, bytes), settled(true, dests)),
            dests[k],
        ) == Some(bytes));
    }
}

/// What a look at the places of a file finds, where no place is a temporary path.
proof fn lemma_observed(
    files: Seq<EntryView>,
    destinations: Seq<Seq<PartView>>,
    sizes: Sizes,
    i: int,
    d: int,
)
    requires
        apart(files, destinations),
        0 <= i < files.len(),
        0 <= d < destinations.len(),
    ensures
        observed(sizes, places(destinations, files[i].relative_path))[d] == size_at(
            sizes,
            place_of(files, destinations, i, d),
        ),
{
    let paths = places(destinations, files[i].relative_path);
    assert(paths[d] == place_of(files, destinations, i, d));
    let some = paths.take(d + 1);
    assert forall|e: int| 0 <= e < some.len() implies tmp_path(#[trigger] some[e])
        != paths[d] by {
        assert(some[e] == place_of(files, destinations, i, e));
    }
    lemma_leftovers(sizes, some, paths[d]);
}

/// What needs a copy is a choice of the places of the file, each once.
proof fn lemma_needing_is_separate(
    files: Seq<EntryView>,
    destinations: Seq<Seq<PartView>>,
    existing: Seq<Option<u64>>,
    i: int,
)
    requires
        apart(files, destinations),
        0 <= i < files.len(),
        existing.len() == destinations.len(),
    ensures
        separate(
            needing(
                places(destinations, files[i].relative_path),
                existing,
                files[i].size,
            ),
        ),
{
    let paths = places(destinations, files[i].relative_path);
    let needed = needing(paths, existing, files[i].size);
    lemma_needing_is_exact(paths, existing, files[i].size);
    assert forall|a: int, b: int| 0 <= a < b < paths.len() implies paths[a] != paths[b] by {
        assert(paths[a] == place_of(files, destinations, i, a));
        assert(paths[b] == place_of(files, destinations, i, b));
    }
    lemma_needing_has_no_duplicates(paths, existing, files[i].size);
    assert forall|a: int, b: int| 0 <= a < needed.len() && 0 <= b < needed.len() implies tmp_path(
        #[trigger] needed[a],
    ) != #[trigger] needed[b] && (a != b ==> tmp_path(needed[a]) != tmp_path(needed[b])) by {
        assert(needed.contains(needed[a]));
        assert(needed.contains(needed[b]));
        let d = choose|d: int|
            0 <= d < paths.len() && paths[d] == needed[a] && #[trigger] existing[d] != Some(
                files[i].size,
            );
        let e = choose|e: int|
            0 <= e < paths.len() && paths[e] == needed[b] && #[trigger] existing[e] != Some(
                files[i].size,
            );
        assert(paths[d] == place_of(files, destinations, i, d));
        assert(paths[e] == place_of(files, destinations, i, e));
        if a != b {
            assert(needed[a] != needed[b]);
        }
    }
}

proof fn lemma_needing_has_no_duplicates(
    paths: Seq<Seq<PartView>>,
    existing: Seq<Option<u64>>,
    size: u64,
)
    requires
        paths.len() <= existing.len(),
        forall|a: int, b: int| 0 <= a < b < paths.len() ==> paths[a] != paths[b],
    ensures
        needing(paths, existing, size).no_duplicates(),
    decreases paths.len(),
{
    if paths.len() > 0 {
        let fewer = paths.drop_last();
        let before = needing(fewer, existing, size);
        lemma_needing_has_no_duplicates(fewer, existing, size);
        lemma_needing_is_exact(fewer, existing, size);
        if before.contains(paths.last()) {
            let d = choose|d: int|
                0 <= d < fewer.len() && fewer[d] == paths.last() && #[trigger] existing[d] != Some(
                    size,
                );
            assert(paths[d] != paths[paths.len() - 1]);
        }
    }
}

/// Whether all results are successes with the size that their file had.
pub open spec fn all_right(run: RunView) -> bool {
    forall|i: int|
        0 <= i < run.results.len() ==> (#[trigger] run.results[i]).success && run.results[i].size
            == run.files[i].size
}

/// The steps of a copying are steps of its run.
proof fn lemma_run_of(
    files: Seq<EntryView>,
    destinations: Seq<Seq<PartView>>,
    sizes: Sizes,
    steps: Seq<RunStep>,
)
    requires
        Copying::start(files, destinations, sizes).due_all(steps),
    ensures
        RunView::start(files, destinations).due_all(steps),
        Copying::start(files, destinations, sizes).did_all(steps).run == RunView::start(
            files,
            destinations,
        ).did_all(steps),
    decreases steps.len(),
{
    if steps.len() > 0 {
        lemma_run_of(files, destinations, sizes, steps.drop_last());
    }
}

/// What copying has dealt with is there, at every place, in the size that it had.
pub proof fn lemma_copied_files_are_present(
    files: Seq<EntryView>,
    destinations: Seq<Seq<PartView>>,
    sizes: Sizes,
    steps: Seq<RunStep>,
)
    requires
        apart(files, destinations),
        Copying::start(files, destinations, sizes).due_all(steps),
        all_right(Copying::start(files, destinations, sizes).did_all(steps).run),
    ensures
        ({
            let copying = Copying::start(files, destinations, sizes).did_all(steps);
            present(files, destinations, copying.sizes, copying.run.results.len() as int)
        }),
{
    lemma_copying(files, destinations, sizes, steps);
}

/// Whether what was dealt with is there, and the places that the current file is being copied
/// to are those of its places where it is not.
spec fn on_course(
    files: Seq<EntryView>,
    destinations: Seq<Seq<PartView>>,
    copying: Copying,
) -> bool {
    let i = copying.run.results.len() as int;
    &&& present(files, destinations, copying.sizes, i)
    &&& copying.run.phase == Phase::Copying ==> {
        &&& separate(copying.dests)
        &&& forall|k: int|
            0 <= k < copying.dests.len() ==> is_place(
                files,
                destinations,
                i,
                #[trigger] copying.dests[k],
            )
        &&& forall|d: int|
            0 <= d < destinations.len() ==> copying.dests.contains(
                #[trigger] place_of(files, destinations, i, d),
            ) || size_at(copying.sizes, place_of(files, destinations, i, d)) == Some(files[i].size)
    }
}

/// Whether a path is a place of the file.
spec fn is_place(
    files: Seq<EntryView>,
    destinations: Seq<Seq<PartView>>,
    i: int,
    path: Seq<PartView>,
) -> bool {
    exists|d: int|
        0 <= d < destinations.len() && path == #[trigger] place_of(files, destinations, i, d)
}

proof fn lemma_copying(
    files: Seq<EntryView>,
    destinations: Seq<Seq<PartView>>,
    sizes: Sizes,
    steps: Seq<RunStep>,
)
    requires
        apart(files, destinations),
        Copying::start(files, destinations, sizes).due_all(steps),
        all_right(Copying::start(files, destinations, sizes).did_all(steps).run),
    ensures
        on_course(
            files,
            destinations,
            Copying::start(files, destinations, sizes).did_all(steps),
        ),
    decreases steps.len(),
{
    let start = Copying::start(files, destinations, sizes);
    let now = start.did_all(steps);
    if steps.len() > 0 {
        let fewer = steps.drop_last();
        let before = start.did_all(fewer);
        let i = before.run.results.len() as int;
        lemma_run_of(files, destinations, sizes, fewer);
        lemma_run_of(files, destinations, sizes, steps);
        lemma_every_file_has_a_result(files, destinations, fewer);
        assert forall|j: int| 0 <= j < before.run.results.len() implies (
        #[trigger] before.run.results[j]).success && before.run.results[j].size
            == before.run.files[j].size by {
            assert(now.run.results[j] == before.run.results[j]);
        }
        lemma_copying(files, destinations, sizes, fewer);
        match steps.last() {
            RunStep::Next(_) => {},
            RunStep::Probed(existing) => {
                let paths = places(destinations, files[i].relative_path);
                assert forall|j: int, d: int|
                    0 <= j < files.len() && 0 <= d < destinations.len() implies size_at(
                    now.sizes,
                    #[trigger] place_of(files, destinations, j, d),
                ) == size_at(before.sizes, place_of(files, destinations, j, d)) by {
                    assert forall|e: int| 0 <= e < paths.len() implies tmp_path(
                        #[trigger] paths[e],
                    ) != place_of(files, destinations, j, d) by {
                        assert(paths[e] == place_of(files, destinations, i, e));
                    }
                    lemma_leftovers(before.sizes, paths, place_of(files, destinations, j, d));
                }
                let needed = before.run.to_copy(existing);
                lemma_needing_is_separate(files, destinations, existing, i);
                lemma_needing_is_exact(paths, existing, files[i].size);
                assert forall|d: int| 0 <= d < destinations.len() implies needed.contains(
                    #[trigger] place_of(files, destinations, i, d),
                ) || size_at(now.sizes, place_of(files, destinations, i, d)) == Some(
                    files[i].size,
                ) by {
                    lemma_observed(files, destinations, before.sizes, i, d);
                    assert(paths[d] == place_of(files, destinations, i, d));
                    if existing[d] != Some(files[i].size) {
                        assert(needed.contains(paths[d]));
                    }
                }
                assert forall|k: int| 0 <= k < needed.len() implies is_place(
                    files,
                    destinations,
                    i,
                    #[trigger] needed[k],
                ) by {
                    assert(needed.contains(needed[k]));
                    let d = choose|d: int|
                        0 <= d < paths.len() && paths[d] == needed[k] && #[trigger] existing[d]
                            != Some(files[i].size);
                    assert(paths[d] == place_of(files, destinations, i, d));
                }
                if needed.len() == 0 {
                    assert forall|j: int, d: int|
                        0 <= j <= i && 0 <= d < destinations.len() implies size_at(
                        now.sizes,
                        #[trigger] place_of(files, destinations, j, d),
                    ) == Some(files[j].size) by {
                        if j < i {
                            assert(size_at(
                                before.sizes,
                                place_of(files, destinations, j, d),
                            ) == Some(files[j].size));
                        } else {
                            assert(!needed.contains(place_of(files, destinations, i, d)));
                        }
                    }
                }
            },
            RunStep::Copied(outcome) => {
                assert forall|j: int, d: int, k: int|
                    0 <= j < files.len() && 0 <= d < destinations.len() && 0 <= k
                        < before.dests.len() implies tmp_path(#[trigger] before.dests[k])
                    != #[trigger] place_of(files, destinations, j, d) by {
                    assert(is_place(files, destinations, i, before.dests[k]));
                    let e = choose|e: int|
                        0 <= e < destinations.len() && before.dests[k] == #[trigger] place_of(
                            files,
                            destinations,
                            i,
                            e,
                        );
                    assert(place_of(files, destinations, i, e) == before.dests[k]);
                }
                match outcome {
                    Ok((bytes, _)) => {
                        assert(now.run.results[i].size == files[i].size);
                        assert forall|j: int, d: int|
                            0 <= j <= i && 0 <= d < destinations.len() implies size_at(
                            now.sizes,
                            #[trigger] place_of(files, destinations, j, d),
                        ) == Some(files[j].size) by {
                            let path = place_of(files, destinations, j, d);
                            lemma_copies_are_there(
                                before.sizes,
                                before.dests,
                                bytes as u64,
                                path,
                            );
                            if before.dests.contains(path) {
                                let k = choose|k: int|
                                    0 <= k < before.dests.len() && before.dests[k] == path;
                                assert(is_place(files, destinations, i, before.dests[k]));
                                let e = choose|e: int|
                                    0 <= e < destinations.len() && before.dests[k]
                                        == #[trigger] place_of(files, destinations, i, e);
                                assert(place_of(files, destinations, i, e) == path);
                            }
                        }
                    },
                    Err(_) => {
                        assert forall|j: int, d: int|
                            0 <= j < i && 0 <= d < destinations.len() implies size_at(
                            now.sizes,
                            #[trigger] place_of(files, destinations, j, d),
                        ) == Some(files[j].size) by {
                            let path = place_of(files, destinations, j, d);
                            lemma_leftovers(before.sizes, before.dests, path);
                        }
                        if now.run.results.len() > i {
                            assert(now.run.results[i].success);
                        }
                    },
                }
            },
        }
    }
}

proof fn lemma_finds_everything(
    files: Seq<EntryView>,
    destinations: Seq<Seq<PartView>>,
    sizes: Sizes,
    steps: Seq<RunStep>,
)
    requires
        apart(files, destinations),
        present(files, destinations, sizes, files.len() as int),
        Copying::start(files, destinations, sizes).due_all(steps),
    ensures
        forall|i: int, d: int|
            0 <= i < files.len() && 0 <= d < destinations.len() ==> size_at(
                Copying::start(files, destinations, sizes).did_all(steps).sizes,
                #[trigger] place_of(files, destinations, i, d),
            ) == size_at(sizes, place_of(files, destinations, i, d)),
        forall|k: int, d: int|
            0 <= k < steps.len() && steps[k] is Probed && 0 <= d < destinations.len()
                ==> #[trigger] steps[k]->Probed_0[d] == Some(
                RunView::start(files, destinations).did_all(steps.take(k)).current().size,
            ),
    decreases steps.len(),
{
    let start = Copying::start(files, destinations, sizes);
    if steps.len() > 0 {
        let fewer = steps.drop_last();
        let last = steps.len() - 1;
        let before = start.did_all(fewer);
        let now = start.did_all(steps);
        let i = before.run.results.len() as int;
        lemma_finds_everything(files, destinations, sizes, fewer);
        lemma_run_of(files, destinations, sizes, fewer);
        lemma_every_file_has_a_result(files, destinations, fewer);
        lemma_present_files_are_skipped(files, destinations, fewer);
        assert(steps[last] == steps.last());
        assert(steps.take(last) =~= fewer);
        assert forall|k: int, d: int|
            0 <= k < steps.len() && steps[k] is Probed && 0 <= d < destinations.len() implies (
        #[trigger] steps[k]->Probed_0[d]) == Some(
            RunView::start(files, destinations).did_all(steps.take(k)).current().size,
        ) by {
            if k < last {
                assert(fewer[k]->Probed_0[d] == steps[k]->Probed_0[d]);
                assert(fewer.take(k) =~= steps.take(k));
            } else {
                lemma_observed(files, destinations, before.sizes, i, d);
                assert(size_at(sizes, place_of(files, destinations, i, d)) == Some(
                    files[i].size,
                ));
            }
        }
        if steps.last() is Probed {
            let paths = places(destinations, files[i].relative_path);
            assert forall|j: int, d: int|
                0 <= j < files.len() && 0 <= d < destinations.len() implies size_at(
                now.sizes,
                #[trigger] place_of(files, destinations, j, d),
            ) == size_at(sizes, place_of(files, destinations, j, d)) by {
                assert forall|e: int| 0 <= e < paths.len() implies tmp_path(#[trigger] paths[e])
                    != place_of(files, destinations, j, d) by {
                    assert(paths[e] == place_of(files, destinations, i, e));
                }
                lemma_leftovers(before.sizes, paths, place_of(files, destinations, j, d));
            }
        }
    }
}

/// After copying that had a success of the right size for every file, copying the same files
/// again, with nothing changed in between, copies nothing: it has for each file that it was
/// there already, and leaves every place as it is.
pub proof fn lemma_second_copying_skips_all(
    files: Seq<EntryView>,
    destinations: Seq<Seq<PartView>>,
    sizes: Sizes,
    first: Seq<RunStep>,
    second: Seq<RunStep>,
)
    requires
        apart(files, destinations),
        Copying::start(files, destinations, sizes).due_all(first),
        ({
            let done = Copying::start(files, destinations, sizes).did_all(first);
            &&& done.run.results.len() == files.len()
            &&& all_right(done.run)
            &&& Copying::start(files, destinations, done.sizes).due_all(second)
        }),
    ensures
        ({
            let done = Copying::start(files, destinations, sizes).did_all(first);
            let again = Copying::start(files, destinations, done.sizes).did_all(second);
            &&& forall|k: int| 0 <= k < second.len() ==> !(#[trigger] second[k] is Copied)
            &&& forall|i: int|
                0 <= i < again.run.results.len() ==> #[trigger] again.run.results[i]
                    == skipped_result(files[i])
            &&& forall|i: int, d: int|
                0 <= i < files.len() && 0 <= d < destinations.len() ==> size_at(
                    again.sizes,
                    #[trigger] place_of(files, destinations, i, d),
                ) == size_at(done.sizes, place_of(files, destinations, i, d))
            &&& again.run.phase == Phase::Over && (forall|k: int|
                0 <= k < second.len() ==> !stops(#[trigger] second[k])) ==> again.run.results.len()
                == files.len()
        }),
{
    let done = Copying::start(files, destinations, sizes).did_all(first);
    lemma_run_of(files, destinations, sizes, first);
    lemma_copied_files_are_present(files, destinations, sizes, first);
    lemma_run_of(files, destinations, done.sizes, second);
    lemma_finds_everything(files, destinations, done.sizes, second);
    lemma_present_files_are_skipped(files, destinations, second);
    lemma_every_file_has_a_result(files, destinations, second);
}

/// The temporary path of a place lies in the destination as the temporary path of what is
/// placed there.
proof fn lemma_tmp_of_place(base: Seq<PartView>, below: Seq<PartView>)
    requires
        is_descent(below),
        below.len() > 0,
    ensures
        joined(base, below) == base + below,
        tmp_path(base + below) == base + tmp_path(below),
        file_name_of(base + below) == file_name_of(below),
        file_name_of(below) is Some,
{
    assert(below[below.len() - 1] is Normal);
    assert(below[0] is Normal);
    assert((base + below).last() == below.last());
    assert((base + below).drop_last() =~= base + below.drop_last());
    assert(tmp_path(base + below) =~= base + tmp_path(below));
}

/// What lies in one destination does not lie in another, unless one of them lies in the other.
proof fn lemma_in_one_destination(
    a: Seq<PartView>,
    b: Seq<PartView>,
    x: Seq<PartView>,
    y: Seq<PartView>,
)
    requires
        a + x == b + y,
    ensures
        stripped(a, b) is Some || stripped(b, a) is Some,
{
    let whole = a + x;
    if a.len() <= b.len() {
        assert(b.take(a.len() as int) =~= whole.take(a.len() as int));
        assert(whole.take(a.len() as int) =~= a);
    } else {
        assert(a.take(b.len() as int) =~= whole.take(b.len() as int));
        assert(whole.take(b.len() as int) =~= b);
    }
}

proof fn lemma_in_same_destination(a: Seq<PartView>, x: Seq<PartView>, y: Seq<PartView>)
    requires
        a + x == a + y,
    ensures
        x == y,
{
    assert(x =~= (a + x).skip(a.len() as int));
    assert(y =~= (a + y).skip(a.len() as int));
}

/// The copies of files in different places below the source do not get into each other's way
/// in destinations none of which lies in another, as long as no file has the name of another
/// one's temporary file.
pub proof fn lemma_usual_places_are_apart(
    files: Seq<EntryView>,
    destinations: Seq<Seq<PartView>>,
)
    requires
        forall|i: int|
            #![trigger files[i]]
            0 <= i < files.len() ==> {
                &&& is_descent(files[i].relative_path)
                &&& files[i].relative_path.len() > 0
                &&& file_name_of(files[i].relative_path) != Some(Seq::<u8>::empty())
            },
        forall|i: int, j: int|
            0 <= i < files.len() && 0 <= j < files.len() ==> tmp_path(
                (#[trigger] files[i]).relative_path,
            ) != (#[trigger] files[j]).relative_path,
        forall|i: int, j: int|
            0 <= i < files.len() && 0 <= j < files.len() && i != j ==> (
            #[trigger] files[i]).relative_path != (#[trigger] files[j]).relative_path,
        forall|d: int, e: int|
            0 <= d < destinations.len() && 0 <= e < destinations.len() && d != e ==> stripped(
                #[trigger] destinations[d],
                #[trigger] destinations[e],
            ) is None,
    ensures
        apart(files, destinations),
{
    assert forall|i: int, d: int, j: int, e: int|
        0 <= i < files.len() && 0 <= d < destinations.len() && 0 <= j < files.len() && 0 <= e
            < destinations.len() implies tmp_path(#[trigger] place_of(files, destinations, i, d))
        != #[trigger] place_of(files, destinations, j, e) && (place_of(files, destinations, i, d)
        == place_of(files, destinations, j, e) ==> i == j && d == e) by {
        let a = files[i].relative_path;
        let b = files[j].relative_path;
        lemma_tmp_of_place(destinations[d], a);
        lemma_tmp_of_place(destinations[e], b);
        if tmp_path(destinations[d] + a) == destinations[e] + b {
            if d == e {
                lemma_in_same_destination(destinations[d], tmp_path(a), b);
            } else {
                lemma_in_one_destination(destinations[d], destinations[e], tmp_path(a), b);
            }
        }
        if destinations[d] + a == destinations[e] + b {
            if d == e {
                lemma_in_same_destination(destinations[d], a, b);
            } else {
                lemma_in_one_destination(destinations[d], destinations[e], a, b);
            }
        }
    }
    assert forall|i: int, d: int, e: int|
        0 <= i < files.len() && 0 <= d < destinations.len() && 0 <= e < destinations.len() && d
            != e implies {
        &&& #[trigger] place_of(files, destinations, i, d) != #[trigger] place_of(
            files,
            destinations,
            i,
            e,
        )
        &&& tmp_path(place_of(files, destinations, i, d)) != tmp_path(
            place_of(files, destinations, i, e),
        )
    } by {
        let a = files[i].relative_path;
        lemma_tmp_of_place(destinations[d], a);
        lemma_tmp_of_place(destinations[e], a);
        if tmp_path(destinations[d] + a) == tmp_path(destinations[e] + a) {
            lemma_tmp_paths_differ(destinations[d] + a, destinations[e] + a);
        }
    }
}

} // verus!
