//! Copying a list of files to all destinations.
use vstd::prelude::*;
use vstd::string::*;

use crate::discover::{entry_views, EntryView, FileEntry};
use crate::failure::{ErrorKind, IoError, IoErrorView};
use crate::path::{
    directory_of, file_name_of, is_descent, joined, lemma_joined, lemma_strip_undoes_join,
    path_views, stripped, FilePath, PartView, PathPart,
};
use crate::stream::copy_outcome;

verus! {

/// How many buffers may be on their way to a destination. This bounds memory, and lets a slow
/// destination fall behind without holding up the others.
pub const QUEUE_DEPTH: usize = 16;

/// How many milliseconds lie between two updates of the progress of a file at least.
pub const UPDATE_INTERVAL: u64 = 100;

/// Whether progress is to be shown again, `elapsed_ms` milliseconds after it was.
pub fn update_due(elapsed_ms: u64) -> (due: bool)
    ensures
        due == (elapsed_ms >= 100),
{
    elapsed_ms >= UPDATE_INTERVAL
}

/// The bytes of `.tmp`.
pub open spec fn tmp_suffix() -> Seq<u8> {
    seq![46u8, 116u8, 109u8, 112u8]
}

/// The path under which the file for `dest` is written until it is complete.
pub open spec fn tmp_path(dest: Seq<PartView>) -> Seq<PartView> {
    let name = match file_name_of(dest) {
        Some(name) => name,
        None => Seq::empty(),
    };
    directory_of(dest).push(PartView::Normal(name + tmp_suffix()))
}

/// The path under which the file for `dest_path` is written until it is complete: beside it,
/// with `.tmp` behind its name.
pub fn tmp_path_for(dest_path: &FilePath) -> (tmp: FilePath)
    ensures
        tmp@ == tmp_path(dest_path@),
        tmp@.len() > 0,
        dest_path@.len() > 0 && dest_path@.last() is Normal ==> tmp@ == dest_path@.drop_last().push(
            PartView::Normal(dest_path@.last()->Normal_0 + seq![46u8, 116u8, 109u8, 112u8]),
        ),
        dest_path@.len() == 0 || !(dest_path@.last() is Normal) ==> tmp@ == dest_path@.push(
            PartView::Normal(seq![46u8, 116u8, 109u8, 112u8]),
        ),
{
    let mut parts: Vec<PathPart> = dest_path.clone().parts;
    let mut name: Vec<u8> = Vec::new();
    if let Some(bytes) = dest_path.file_name() {
        name = bytes.clone();
        let _ = parts.pop();
    }
    name.push(46);
    name.push(116);
    name.push(109);
    name.push(112);
    parts.push(PathPart::Normal(name));
    let tmp = FilePath::new(parts);
    proof {
        lemma_tmp_path_adds_a_suffix(dest_path@);
    }
    assert(tmp@ =~= tmp_path(dest_path@)) by {
        let stem = match file_name_of(dest_path@) {
            Some(bytes) => bytes,
            None => Seq::empty(),
        };
        assert(name@ =~= stem + tmp_suffix());
    }
    tmp
}

/// No file is written under its own name before it is complete: the temporary path is a
/// sibling of the destination, never the destination itself.
pub proof fn lemma_tmp_path_is_sibling(dest: Seq<PartView>)
    ensures
        tmp_path(dest) != dest,
        directory_of(tmp_path(dest)) == directory_of(dest),
{
    assert(directory_of(tmp_path(dest)) =~= directory_of(dest));
    if tmp_path(dest) == dest {
        assert(dest.last() == tmp_path(dest).last());
        let name = file_name_of(dest)->0;
        assert((name + tmp_suffix()).len() == name.len() + 4);
    }
}

/// Different destinations are written under different temporary paths, as long as names are
/// not empty.
pub proof fn lemma_tmp_paths_differ(a: Seq<PartView>, b: Seq<PartView>)
    requires
        tmp_path(a) == tmp_path(b),
        file_name_of(a) != Some(Seq::<u8>::empty()),
        file_name_of(b) != Some(Seq::<u8>::empty()),
    ensures
        a == b,
{
    let stem_a = match file_name_of(a) {
        Some(name) => name,
        None => Seq::empty(),
    };
    let stem_b = match file_name_of(b) {
        Some(name) => name,
        None => Seq::empty(),
    };
    assert(tmp_path(a).drop_last() =~= directory_of(a));
    assert(tmp_path(b).drop_last() =~= directory_of(b));
    assert(tmp_path(a).last() == PartView::Normal(stem_a + tmp_suffix()));
    assert(tmp_path(b).last() == PartView::Normal(stem_b + tmp_suffix()));
    let whole = stem_a + tmp_suffix();
    assert(whole == stem_b + tmp_suffix());
    assert(stem_a =~= whole.take(whole.len() - 4));
    assert(stem_b =~= whole.take(whole.len() - 4));
    if file_name_of(a) is Some {
        assert(file_name_of(b) is Some) by {
            if file_name_of(b) is None {
                assert(stem_a =~= Seq::empty());
            }
        }
        assert(a =~= directory_of(a).push(PartView::Normal(stem_a)));
        assert(b =~= directory_of(b).push(PartView::Normal(stem_b)));
    } else if file_name_of(b) is Some {
        assert(stem_b =~= Seq::empty());
    }
}

/// Whether a destination needs no copy: a file of the same size is there. `existing` is the
/// length of what is there, if that could be found out.
pub fn should_skip(existing: Option<u64>, source_size: u64) -> (skip: bool)
    ensures
        skip == (existing == Some(source_size)),
{
    match existing {
        Some(len) => len == source_size,
        None => false,
    }
}

/// What is to be done with the temporary files once a copy is over.
#[derive(Debug)]
pub enum Settlement {
    /// Give the temporary file its name.
    Rename(FilePath, FilePath),
    /// Give the destination the access and modification times of the source.
    SetTimes(FilePath),
    /// Remove the temporary file.
    Remove(FilePath),
}

/// The model of a `Settlement`.
pub enum SettlementView {
    Rename(Seq<PartView>, Seq<PartView>),
    SetTimes(Seq<PartView>),
    Remove(Seq<PartView>),
}

impl View for Settlement {
    type V = SettlementView;

    open spec fn view(&self) -> SettlementView {
        match self {
            Settlement::Rename(from, to) => SettlementView::Rename(from@, to@),
            Settlement::SetTimes(path) => SettlementView::SetTimes(path@),
            Settlement::Remove(path) => SettlementView::Remove(path@),
        }
    }
}

/// What is to be done, in order, once a copy to `dests` has succeeded or failed.
pub open spec fn settled(success: bool, dests: Seq<Seq<PartView>>) -> Seq<SettlementView> {
    if success {
        Seq::new(
            2 * dests.len(),
            |i: int|
                if i % 2 == 0 {
                    SettlementView::Rename(tmp_path(dests[i / 2]), dests[i / 2])
                } else {
                    SettlementView::SetTimes(dests[i / 2])
                },
        )
    } else {
        Seq::new(dests.len(), |i: int| SettlementView::Remove(tmp_path(dests[i])))
    }
}

/// Whether a step gives the file at `from` the name `to`.
pub open spec fn renames(step: Settlement, from: Seq<PartView>, to: Seq<PartView>) -> bool {
    match step {
        Settlement::Rename(a, b) => a@ == from && b@ == to,
        _ => false,
    }
}

/// Whether a step sets the times of the file at `path`.
pub open spec fn sets_times(step: Settlement, path: Seq<PartView>) -> bool {
    match step {
        Settlement::SetTimes(a) => a@ == path,
        _ => false,
    }
}

/// Whether a step removes the file at `path`.
pub open spec fn removes(step: Settlement, path: Seq<PartView>) -> bool {
    match step {
        Settlement::Remove(a) => a@ == path,
        _ => false,
    }
}

/// What is to be done, in order, once a copy to `dests` has succeeded or failed. After a
/// success the first step that fails ends it; after a failure all steps are tried.
pub fn settle(success: bool, dests: &Vec<FilePath>) -> (steps: Vec<Settlement>)
    ensures
        steps@.map_values(|step: Settlement| step@) == settled(success, path_views(dests@)),
        steps@.len() == if success {
            2 * dests@.len()
        } else {
            dests@.len()
        },
        success ==> forall|i: int|
            #![trigger dests@[i]]
            0 <= i < dests@.len() ==> renames(steps@[2 * i], tmp_path(dests@[i]@), dests@[i]@)
                && sets_times(steps@[2 * i + 1], dests@[i]@),
        !success ==> forall|i: int|
            #![trigger dests@[i]]
            0 <= i < dests@.len() ==> removes(steps@[i], tmp_path(dests@[i]@)),
{
    let mut steps: Vec<Settlement> = Vec::new();
    let n: usize = dests.len();
    let ghost wanted = settled(success, path_views(dests@));
    let mut i: usize = 0;
    while i < n
        invariant
            n == dests@.len(),
            i <= n,
            wanted == settled(success, path_views(dests@)),
            steps@.len() == if success {
                2 * i as nat
            } else {
                i as nat
            },
            forall|k: int| 0 <= k < steps@.len() ==> (#[trigger] steps@[k])@ == wanted[k],
            success ==> forall|k: int|
                #![trigger dests@[k]]
                0 <= k < i ==> renames(steps@[2 * k], tmp_path(dests@[k]@), dests@[k]@)
                    && sets_times(steps@[2 * k + 1], dests@[k]@),
            !success ==> forall|k: int|
                #![trigger dests@[k]]
                0 <= k < i ==> removes(steps@[k], tmp_path(dests@[k]@)),
        decreases n - i,
    {
        let tmp = tmp_path_for(&dests[i]);
        if success {
            steps.push(Settlement::Rename(tmp, dests[i].clone()));
            steps.push(Settlement::SetTimes(dests[i].clone()));
        } else {
            steps.push(Settlement::Remove(tmp));
        }
        i += 1;
    }
    assert(steps@.map_values(|step: Settlement| step@) =~= wanted);
    steps
}

/// A copy of one file that failed leaves its destinations as they were: all that is touched
/// then are temporary files, and none of these is a destination of the file.
pub proof fn lemma_failure_touches_no_destination(
    dests: Seq<Seq<PartView>>,
    name: Seq<u8>,
    i: int,
    j: int,
)
    requires
        0 <= i < dests.len(),
        0 <= j < dests.len(),
        file_name_of(dests[i]) == Some(name),
        file_name_of(dests[j]) == Some(name),
    ensures
        settled(false, dests).len() == dests.len(),
        settled(false, dests)[i] == SettlementView::Remove(tmp_path(dests[i])),
        tmp_path(dests[i]) != dests[j],
{
    if tmp_path(dests[i]) == dests[j] {
        assert(dests[j].last() == tmp_path(dests[i]).last());
        assert((name + tmp_suffix()).len() == name.len() + 4);
    }
}

/// What became of one file.
#[derive(Debug)]
pub struct CopyResult {
    pub relative_path: FilePath,
    pub source_path: FilePath,
    pub size: u64,
    /// The hash of what was copied, or nothing if that is not known.
    pub inflight_hash: String,
    pub success: bool,
    pub skipped: bool,
    pub error: Option<String>,
}

/// The model of a `CopyResult`.
pub struct ResultView {
    pub relative_path: Seq<PartView>,
    pub source_path: Seq<PartView>,
    pub size: u64,
    pub inflight_hash: Seq<char>,
    pub success: bool,
    pub skipped: bool,
    pub error: Option<Seq<char>>,
}

impl View for CopyResult {
    type V = ResultView;

    open spec fn view(&self) -> ResultView {
        ResultView {
            relative_path: self.relative_path@,
            source_path: self.source_path@,
            size: self.size,
            inflight_hash: self.inflight_hash@,
            success: self.success,
            skipped: self.skipped,
            error: match self.error {
                Some(text) => Some(text@),
                None => None,
            },
        }
    }
}

/// The models of a list of results.
pub open spec fn result_views(results: Seq<CopyResult>) -> Seq<ResultView> {
    results.map_values(|result: CopyResult| result@)
}

/// The result for a file that all destinations have already.
pub open spec fn skipped_result(file: EntryView) -> ResultView {
    ResultView {
        relative_path: file.relative_path,
        source_path: file.absolute_path,
        size: file.size,
        inflight_hash: Seq::empty(),
        success: true,
        skipped: true,
        error: None,
    }
}

/// The result for a file of which `bytes` were copied, with this hash.
pub open spec fn copied_result(file: EntryView, bytes: nat, hash: Seq<char>) -> ResultView {
    ResultView {
        relative_path: file.relative_path,
        source_path: file.absolute_path,
        size: bytes as u64,
        inflight_hash: hash,
        success: true,
        skipped: false,
        error: None,
    }
}

/// The result for a file that could not be copied.
pub open spec fn failed_result(file: EntryView, error: IoErrorView) -> ResultView {
    ResultView {
        relative_path: file.relative_path,
        source_path: file.absolute_path,
        size: file.size,
        inflight_hash: Seq::empty(),
        success: false,
        skipped: false,
        error: Some(error.message),
    }
}

/// The sizes of these files, added up.
pub open spec fn total_size(files: Seq<EntryView>) -> nat
    decreases files.len(),
{
    if files.len() == 0 {
        0
    } else {
        total_size(files.drop_last()) + files.last().size as nat
    }
}

/// The sizes of the results that count, added up.
pub open spec fn result_bytes(results: Seq<ResultView>, with_skipped: bool) -> nat
    decreases results.len(),
{
    if results.len() == 0 {
        0
    } else {
        let last = results.last();
        let counted = last.success && (with_skipped || !last.skipped);
        result_bytes(results.drop_last(), with_skipped) + if counted {
            last.size as nat
        } else {
            0
        }
    }
}

/// How many files were copied.
pub open spec fn copied_count(results: Seq<ResultView>) -> nat
    decreases results.len(),
{
    if results.len() == 0 {
        0
    } else {
        copied_count(results.drop_last()) + if results.last().success && !results.last().skipped {
            1nat
        } else {
            0nat
        }
    }
}

/// How many files were there already.
pub open spec fn skipped_count(results: Seq<ResultView>) -> nat
    decreases results.len(),
{
    if results.len() == 0 {
        0
    } else {
        skipped_count(results.drop_last()) + if results.last().skipped {
            1nat
        } else {
            0nat
        }
    }
}

/// Where the copying stands.
#[derive(Debug, Clone, Copy, PartialEq, Eq, Structural)]
pub enum Phase {
    /// Before the next file.
    Ready,
    /// Finding out which destinations have the file.
    Probing,
    /// Copying the file.
    Copying,
    /// At the end, or stopped.
    Over,
}

/// What became of a copy.
#[derive(Debug, Clone, Copy, PartialEq, Eq, Structural)]
pub enum CopyEnd {
    Copied,
    Failed,
    /// Interrupted: nothing is recorded for the file, and the copying is over.
    Stopped,
}

/// The copying of a list of files, one after the other.
#[derive(Debug)]
pub struct CopyRun {
    files: Vec<FileEntry>,
    destinations: Vec<FilePath>,
    total_bytes: u64,
    bytes_done: u64,
    copied_bytes: u64,
    results: Vec<CopyResult>,
    phase: Phase,
}

/// The model of a `CopyRun`.
pub struct RunView {
    pub files: Seq<EntryView>,
    pub destinations: Seq<Seq<PartView>>,
    pub total_bytes: nat,
    pub bytes_done: nat,
    pub copied_bytes: nat,
    pub results: Seq<ResultView>,
    pub phase: Phase,
}

impl View for CopyRun {
    type V = RunView;

    closed spec fn view(&self) -> RunView {
        RunView {
            files: entry_views(self.files@),
            destinations: path_views(self.destinations@),
            total_bytes: self.total_bytes as nat,
            bytes_done: self.bytes_done as nat,
            copied_bytes: self.copied_bytes as nat,
            results: result_views(self.results@),
            phase: self.phase,
        }
    }
}

/// The places of a file in all destinations.
pub open spec fn places(destinations: Seq<Seq<PartView>>, relative: Seq<PartView>) -> Seq<
    Seq<PartView>,
> {
    destinations.map_values(|dest: Seq<PartView>| joined(dest, relative))
}

/// Those of `paths` that need a copy, in order: where what is there has not the size of the
/// source.
pub open spec fn needing(
    paths: Seq<Seq<PartView>>,
    existing: Seq<Option<u64>>,
    size: u64,
) -> Seq<Seq<PartView>>
    decreases paths.len(),
{
    if paths.len() == 0 {
        Seq::empty()
    } else {
        let before = needing(paths.drop_last(), existing, size);
        if existing[paths.len() - 1] == Some(size) {
            before
        } else {
            before.push(paths.last())
        }
    }
}

impl RunView {
    /// The file whose turn it is.
    pub open spec fn current(self) -> EntryView {
        self.files[self.results.len() as int]
    }

    /// Whether `result` can stand for `file`: it was there already, or copied, or failed.
    pub open spec fn stands_for(result: ResultView, file: EntryView) -> bool {
        ||| result == skipped_result(file)
        ||| result == copied_result(file, result.size as nat, result.inflight_hash)
        ||| (exists|error: IoErrorView| result == #[trigger] failed_result(file, error))
    }

    /// The results are those of the first files, in order, and the byte counts are those of
    /// the results.
    pub open spec fn wf(self) -> bool {
        &&& self.results.len() <= self.files.len()
        &&& self.phase == Phase::Probing || self.phase == Phase::Copying ==> self.results.len()
            < self.files.len()
        &&& forall|i: int|
            0 <= i < self.results.len() ==> RunView::stands_for(
                #[trigger] self.results[i],
                self.files[i],
            )
        &&& forall|i: int|
            #![trigger self.results[i]]
            0 <= i < self.results.len() ==> {
                &&& self.results[i].relative_path == self.files[i].relative_path
                &&& self.results[i].source_path == self.files[i].absolute_path
            }
        &&& self.total_bytes == total_size(self.files)
        &&& self.bytes_done == result_bytes(self.results, true)
        &&& self.copied_bytes == result_bytes(self.results, false)
        &&& self.copied_bytes <= self.bytes_done
    }

    /// The run before the first file.
    pub open spec fn start(files: Seq<EntryView>, destinations: Seq<Seq<PartView>>) -> RunView {
        RunView {
            files,
            destinations,
            total_bytes: total_size(files),
            bytes_done: 0,
            copied_bytes: 0,
            results: Seq::empty(),
            phase: Phase::Ready,
        }
    }

    /// The run at its next file, or at its end if there is none or a stop was requested.
    pub open spec fn next(self, aborted: bool) -> RunView {
        if aborted || self.results.len() == self.files.len() {
            RunView { phase: Phase::Over, ..self }
        } else {
            RunView { phase: Phase::Probing, ..self }
        }
    }

    /// The places that need a copy of the current file.
    pub open spec fn to_copy(self, existing: Seq<Option<u64>>) -> Seq<Seq<PartView>> {
        needing(
            places(self.destinations, self.current().relative_path),
            existing,
            self.current().size,
        )
    }

    /// The run once it is known what is there at the places of the current file.
    pub open spec fn probed(self, existing: Seq<Option<u64>>) -> RunView {
        if self.to_copy(existing).len() == 0 {
            RunView {
                bytes_done: self.bytes_done + self.current().size as nat,
                results: self.results.push(skipped_result(self.current())),
                phase: Phase::Ready,
                ..self
            }
        } else {
            RunView { phase: Phase::Copying, ..self }
        }
    }

    /// The run once the current file was copied, or was not.
    pub open spec fn copied(self, outcome: Result<(nat, Seq<char>), IoErrorView>) -> RunView {
        match outcome {
            Ok((bytes, hash)) => RunView {
                bytes_done: self.bytes_done + bytes,
                copied_bytes: self.copied_bytes + bytes,
                results: self.results.push(copied_result(self.current(), bytes, hash)),
                phase: Phase::Ready,
                ..self
            },
            Err(error) => if error.kind == ErrorKind::Interrupted {
                RunView { phase: Phase::Over, ..self }
            } else {
                RunView {
                    results: self.results.push(failed_result(self.current(), error)),
                    phase: Phase::Ready,
                    ..self
                }
            },
        }
    }
}

/// The sizes of `files`, added up.
pub fn total_bytes(files: &Vec<FileEntry>) -> (total: u64)
    requires
        total_size(entry_views(files@)) <= u64::MAX,
    ensures
        total == total_size(entry_views(files@)),
{
    let ghost views = entry_views(files@);
    let mut total: u64 = 0;
    let mut i: usize = 0;
    assert(views.take(0) =~= Seq::empty());
    while i < files.len()
        invariant
            i <= files@.len(),
            views == entry_views(files@),
            total_size(views) <= u64::MAX,
            total == total_size(views.take(i as int)),
        decreases files@.len() - i,
    {
        proof {
            lemma_total_size_grows(views, i + 1);
            assert(views.take(i + 1).drop_last() =~= views.take(i as int));
            assert(views.take(i + 1).last() == views[i as int]);
        }
        total = total + files[i].size;
        i += 1;
    }
    assert(views.take(i as int) =~= views);
    total
}

proof fn lemma_total_size_grows(files: Seq<EntryView>, i: int)
    requires
        0 <= i <= files.len(),
    ensures
        total_size(files.take(i)) <= total_size(files),
    decreases files.len() - i,
{
    if i == files.len() {
        assert(files.take(i) =~= files);
    } else {
        lemma_total_size_grows(files, i + 1);
        assert(files.take(i + 1).drop_last() =~= files.take(i));
    }
}

/// The places of a file in all destinations.
fn place_all(destinations: &Vec<FilePath>, relative: &FilePath) -> (paths: Vec<FilePath>)
    ensures
        path_views(paths@) == places(path_views(destinations@), relative@),
{
    let ghost wanted = places(path_views(destinations@), relative@);
    let mut paths: Vec<FilePath> = Vec::new();
    let mut i: usize = 0;
    while i < destinations.len()
        invariant
            i <= destinations@.len(),
            wanted == places(path_views(destinations@), relative@),
            paths@.len() == i,
            forall|k: int| 0 <= k < i ==> (#[trigger] paths@[k])@ == wanted[k],
        decreases destinations@.len() - i,
    {
        paths.push(destinations[i].join(relative));
        i += 1;
    }
    assert(path_views(paths@) =~= wanted);
    paths
}

/// Begins the copying of `files` to `destinations`.
pub fn copy_all(files: Vec<FileEntry>, destinations: Vec<FilePath>) -> (run: CopyRun)
    requires
        total_size(entry_views(files@)) <= u64::MAX,
    ensures
        run@ == RunView::start(entry_views(files@), path_views(destinations@)),
        run@.wf(),
        run@.files == entry_views(files@),
        run@.destinations == path_views(destinations@),
        run@.results.len() == 0,
        run@.bytes_done == 0,
        run@.copied_bytes == 0,
        run@.phase == Phase::Ready,
{
    let total_bytes: u64 = total_bytes(&files);
    let run = CopyRun {
        files,
        destinations,
        total_bytes,
        bytes_done: 0,
        copied_bytes: 0,
        results: Vec::new(),
        phase: Phase::Ready,
    };
    assert(run@.results =~= Seq::empty());
    run
}

impl CopyRun {
    /// Goes to the next file. The result is its places in the destinations, where it is to be
    /// found out what is there, leftovers of earlier copies removed. Without a result the
    /// copying is over.
    pub fn next(&mut self, aborted: bool) -> (probe: Option<Vec<FilePath>>)
        requires
            old(self)@.wf(),
            old(self)@.phase == Phase::Ready,
        ensures
            final(self)@ == old(self)@.next(aborted),
            final(self)@.wf(),
            match probe {
                Some(paths) => {
                    &&& final(self)@.phase == Phase::Probing
                    &&& path_views(paths@) == places(
                        old(self)@.destinations,
                        old(self)@.current().relative_path,
                    )
                },
                None => final(self)@.phase == Phase::Over,
            },
            probe is None <==> aborted || old(self)@.results.len() == old(self)@.files.len(),
            probe matches Some(paths) ==> paths@.len() == old(self)@.destinations.len()
                && forall|d: int|
                #![trigger paths@[d]]
                0 <= d < paths@.len() ==> paths@[d]@ == joined(
                    old(self)@.destinations[d],
                    old(self)@.files[old(self)@.results.len() as int].relative_path,
                ),
            final(self)@.results == old(self)@.results,
            final(self)@.files == old(self)@.files,
            final(self)@.destinations == old(self)@.destinations,
            final(self)@.bytes_done == old(self)@.bytes_done,
            final(self)@.copied_bytes == old(self)@.copied_bytes,
    {
        if aborted || self.results.len() == self.files.len() {
            self.phase = Phase::Over;
            return None;
        }
        let paths = place_all(&self.destinations, &self.files[self.results.len()].relative_path);
        proof {
            assert(path_views(paths@) == places(
                self@.destinations,
                self@.current().relative_path,
            ));
            assert(path_views(paths@).len() == paths@.len());
            assert forall|d: int| #![trigger paths@[d]] 0 <= d < paths@.len() implies paths@[d]@
                == joined(
                self@.destinations[d],
                self@.files[self@.results.len() as int].relative_path,
            ) by {
                assert(path_views(paths@)[d] == paths@[d]@);
            }
        }
        self.phase = Phase::Probing;
        Some(paths)
    }

    /// Takes the lengths of what is there at the places of the current file. The result is
    /// the places that need a copy; without a result the file is there everywhere, and is
    /// recorded as skipped.
    pub fn probed(&mut self, existing: &Vec<Option<u64>>) -> (copy: Option<Vec<FilePath>>)
        requires
            old(self)@.wf(),
            old(self)@.phase == Phase::Probing,
            existing@.len() == old(self)@.destinations.len(),
            old(self)@.to_copy(existing@).len() == 0 ==> old(self)@.bytes_done
                + old(self)@.current().size <= u64::MAX,
        ensures
            final(self)@ == old(self)@.probed(existing@),
            final(self)@.wf(),
            match copy {
                Some(paths) => {
                    &&& paths@.len() > 0
                    &&& path_views(paths@) == old(self)@.to_copy(existing@)
                },
                None => old(self)@.to_copy(existing@).len() == 0,
            },
            copy is None <==> forall|d: int|
                0 <= d < existing@.len() ==> #[trigger] existing@[d] == Some(
                    old(self)@.files[old(self)@.results.len() as int].size,
                ),
            copy matches Some(paths) ==> forall|path: Seq<PartView>|
                #[trigger] path_views(paths@).contains(path) <==> exists|d: int|
                    0 <= d < existing@.len() && path == joined(
                        old(self)@.destinations[d],
                        old(self)@.files[old(self)@.results.len() as int].relative_path,
                    ) && #[trigger] existing@[d] != Some(
                        old(self)@.files[old(self)@.results.len() as int].size,
                    ),
            copy is Some ==> final(self)@.results == old(self)@.results
                && final(self)@.bytes_done == old(self)@.bytes_done,
            copy is None ==> ({
                let file = old(self)@.files[old(self)@.results.len() as int];
                let result = final(self)@.results.last();
                &&& final(self)@.results.len() == old(self)@.results.len() + 1
                &&& final(self)@.results.drop_last() == old(self)@.results
                &&& result.relative_path == file.relative_path
                &&& result.source_path == file.absolute_path
                &&& result.size == file.size
                &&& result.inflight_hash.len() == 0
                &&& result.success
                &&& result.skipped
                &&& result.error is None
                &&& final(self)@.bytes_done == old(self)@.bytes_done + file.size
            }),
            final(self)@.files == old(self)@.files,
            final(self)@.destinations == old(self)@.destinations,
            final(self)@.copied_bytes == old(self)@.copied_bytes,
    {
        let ghost before = self@;
        let n: usize = self.results.len();
        let size: u64 = self.files[n].size;
        let paths = place_all(&self.destinations, &self.files[n].relative_path);
        let ghost all = path_views(paths@);
        let mut needed: Vec<FilePath> = Vec::new();
        let mut i: usize = 0;
        assert(all.take(0) =~= Seq::empty());
        assert(path_views(needed@) =~= Seq::empty());
        while i < paths.len()
            invariant
                i <= paths@.len(),
                paths@.len() == existing@.len(),
                all == path_views(paths@),
                path_views(needed@) == needing(all.take(i as int), existing@, size),
            decreases paths@.len() - i,
        {
            let ghost so_far = path_views(needed@);
            proof {
                assert(all.take(i + 1).drop_last() =~= all.take(i as int));
                assert(all.take(i + 1).last() == paths@[i as int]@);
            }
            if !should_skip(existing[i], size) {
                needed.push(paths[i].clone());
                assert(path_views(needed@) =~= so_far.push(paths@[i as int]@));
            }
            i += 1;
        }
        assert(all.take(i as int) =~= all);
        assert(path_views(needed@).len() == needed@.len());
        proof {
            lemma_needing_is_exact(all, existing@, size);
            assert(all == places(before.destinations, before.current().relative_path));
            assert forall|path: Seq<PartView>|
                #[trigger] path_views(needed@).contains(path) <==> exists|d: int|
                    0 <= d < existing@.len() && path == joined(
                        before.destinations[d],
                        before.files[n as int].relative_path,
                    ) && #[trigger] existing@[d] != Some(size) by {
                if path_views(needed@).contains(path) {
                    let d = choose|d: int|
                        0 <= d < all.len() && all[d] == path && #[trigger] existing@[d] != Some(
                            size,
                        );
                    assert(existing@[d] != Some(size));
                }
                if exists|d: int|
                    0 <= d < existing@.len() && path == joined(
                        before.destinations[d],
                        before.files[n as int].relative_path,
                    ) && #[trigger] existing@[d] != Some(size) {
                    let d = choose|d: int|
                        0 <= d < existing@.len() && path == joined(
                            before.destinations[d],
                            before.files[n as int].relative_path,
                        ) && #[trigger] existing@[d] != Some(size);
                    assert(all[d] == path);
                }
            }
        }
        if needed.len() == 0 {
            let file = self.files[n].clone();
            self.bytes_done = self.bytes_done + size;
            self.results.push(
                CopyResult {
                    relative_path: file.relative_path,
                    source_path: file.absolute_path,
                    size,
                    inflight_hash: String::new(),
                    success: true,
                    skipped: true,
                    error: None,
                },
            );
            self.phase = Phase::Ready;
            proof {
                assert(self@.results =~= before.results.push(skipped_result(before.current())));
                assert(self@.results.drop_last() =~= before.results);
                lemma_pushed(before, self@);
            }
            None
        } else {
            self.phase = Phase::Copying;
            Some(needed)
        }
    }

    /// Takes the outcome of copying the current file.
    pub fn copied(&mut self, outcome: Result<(u64, String), IoError>) -> (end: CopyEnd)
        requires
            old(self)@.wf(),
            old(self)@.phase == Phase::Copying,
            outcome matches Ok((bytes, _)) ==> old(self)@.bytes_done + bytes <= u64::MAX,
        ensures
            final(self)@ == old(self)@.copied(copy_outcome(outcome)),
            final(self)@.wf(),
            match copy_outcome(outcome) {
                Ok(_) => end == CopyEnd::Copied,
                Err(error) => end == if error.kind == ErrorKind::Interrupted {
                    CopyEnd::Stopped
                } else {
                    CopyEnd::Failed
                },
            },
            final(self)@.files == old(self)@.files,
            final(self)@.destinations == old(self)@.destinations,
            end == CopyEnd::Stopped <==> outcome is Err && outcome->Err_0.kind
                == ErrorKind::Interrupted,
            end == CopyEnd::Copied <==> outcome is Ok,
            end == CopyEnd::Stopped ==> final(self)@.results == old(self)@.results
                && final(self)@.phase == Phase::Over,
            end != CopyEnd::Stopped ==> ({
                let file = old(self)@.files[old(self)@.results.len() as int];
                let result = final(self)@.results.last();
                &&& final(self)@.results.len() == old(self)@.results.len() + 1
                &&& final(self)@.results.drop_last() == old(self)@.results
                &&& result.relative_path == file.relative_path
                &&& result.source_path == file.absolute_path
                &&& !result.skipped
                &&& result.success == (outcome is Ok)
                &&& outcome matches Ok((bytes, hash)) ==> result.size == bytes
                    && result.inflight_hash == hash@ && result.error is None
                &&& outcome matches Err(error) ==> result.size == file.size
                    && result.inflight_hash.len() == 0 && result.error == Some(error@.message)
            }),
            outcome matches Ok((bytes, _)) ==> final(self)@.bytes_done == old(self)@.bytes_done
                + bytes && final(self)@.copied_bytes == old(self)@.copied_bytes + bytes,
            outcome is Err ==> final(self)@.bytes_done == old(self)@.bytes_done
                && final(self)@.copied_bytes == old(self)@.copied_bytes,
    {
        let ghost before = self@;
        let n: usize = self.results.len();
        let file = self.files[n].clone();
        match outcome {
            Ok((bytes, hash)) => {
                self.bytes_done = self.bytes_done + bytes;
                self.copied_bytes = self.copied_bytes + bytes;
                let ghost text = hash@;
                self.results.push(
                    CopyResult {
                        relative_path: file.relative_path,
                        source_path: file.absolute_path,
                        size: bytes,
                        inflight_hash: hash,
                        success: true,
                        skipped: false,
                        error: None,
                    },
                );
                self.phase = Phase::Ready;
                proof {
                    assert(self@.results =~= before.results.push(
                        copied_result(before.current(), bytes as nat, text),
                    ));
                    assert(self@.results.drop_last() =~= before.results);
                    lemma_pushed(before, self@);
                }
                CopyEnd::Copied
            },
            Err(error) => {
                if error.is_interrupted() {
                    self.phase = Phase::Over;
                    return CopyEnd::Stopped;
                }
                let ghost view = error@;
                self.results.push(
                    CopyResult {
                        relative_path: file.relative_path,
                        source_path: file.absolute_path,
                        size: file.size,
                        inflight_hash: String::new(),
                        success: false,
                        skipped: false,
                        error: Some(error.message),
                    },
                );
                self.phase = Phase::Ready;
                proof {
                    assert(self@.results =~= before.results.push(
                        failed_result(before.current(), view),
                    ));
                    assert(self@.results.drop_last() =~= before.results);
                    lemma_pushed(before, self@);
                }
                CopyEnd::Failed
            },
        }
    }

    /// The file whose turn it is.
    pub fn current(&self) -> (file: &FileEntry)
        requires
            self@.results.len() < self@.files.len(),
        ensures
            file@ == self@.current(),
    {
        &self.files[self.results.len()]
    }

    pub fn total_bytes(&self) -> (total: u64)
        ensures
            total == self@.total_bytes,
    {
        self.total_bytes
    }

    pub fn bytes_done(&self) -> (bytes: u64)
        ensures
            bytes == self@.bytes_done,
    {
        self.bytes_done
    }

    pub fn copied_bytes(&self) -> (bytes: u64)
        ensures
            bytes == self@.copied_bytes,
    {
        self.copied_bytes
    }

    /// How many files were copied, and how many were there already.
    pub fn counts(&self) -> (counts: (usize, usize))
        ensures
            counts.0 == copied_count(self@.results),
            counts.1 == skipped_count(self@.results),
            counts.0 == self@.results.filter(
                |result: ResultView| result.success && !result.skipped,
            ).len(),
            counts.1 == self@.results.filter(|result: ResultView| result.skipped).len(),
    {
        let ghost views = result_views(self.results@);
        let mut copied: usize = 0;
        let mut skipped: usize = 0;
        let mut i: usize = 0;
        assert(views.take(0) =~= Seq::empty());
        while i < self.results.len()
            invariant
                i <= self.results@.len(),
                views == result_views(self.results@),
                copied <= i,
                skipped <= i,
                copied == copied_count(views.take(i as int)),
                skipped == skipped_count(views.take(i as int)),
            decreases self.results@.len() - i,
        {
            proof {
                assert(views.take(i + 1).drop_last() =~= views.take(i as int));
                assert(views.take(i + 1).last() == views[i as int]);
            }
            if self.results[i].success && !self.results[i].skipped {
                copied += 1;
            }
            if self.results[i].skipped {
                skipped += 1;
            }
            i += 1;
        }
        assert(views.take(i as int) =~= views);
        proof {
            lemma_counts_are_of_the_results(views);
        }
        (copied, skipped)
    }

    /// The results, one for each file that was dealt with, in the order of the files.
    pub fn into_results(self) -> (results: Vec<CopyResult>)
        ensures
            result_views(results@) == self@.results,
            results@.len() == self@.results.len(),
            forall|i: int|
                #![trigger results@[i]]
                0 <= i < results@.len() ==> shows(results@[i], self@.results[i]),
    {
        proof {
            assert forall|i: int| #![trigger self.results@[i]] 0 <= i < self.results@.len() implies
                shows(self.results@[i], self@.results[i]) by {
                assert(self@.results[i] == self.results@[i]@);
            }
        }
        self.results
    }
}

proof fn lemma_pushed(before: RunView, after: RunView)
    requires
        before.wf(),
        before.results.len() < before.files.len(),
        after.files == before.files,
        after.total_bytes == before.total_bytes,
        after.phase == Phase::Ready,
        after.results.len() == before.results.len() + 1,
        after.results == before.results.push(after.results.last()),
        RunView::stands_for(after.results.last(), before.current()),
        after.results.last().relative_path == before.current().relative_path,
        after.results.last().source_path == before.current().absolute_path,
        after.bytes_done == before.bytes_done + if after.results.last().success {
            after.results.last().size as nat
        } else {
            0
        },
        after.copied_bytes == before.copied_bytes + if after.results.last().success
            && !after.results.last().skipped {
            after.results.last().size as nat
        } else {
            0
        },
    ensures
        after.wf(),
{
    assert(after.results.drop_last() =~= before.results);
    assert forall|i: int| 0 <= i < after.results.len() implies RunView::stands_for(
        #[trigger] after.results[i],
        after.files[i],
    ) by {
        if i < before.results.len() {
            assert(after.results[i] == before.results[i]);
        }
    }
}

/// The places that need a copy are those, of all places of the file, where something other
/// than a file of its size is found: a file is skipped only if every destination has it.
pub proof fn lemma_needing_is_exact(
    paths: Seq<Seq<PartView>>,
    existing: Seq<Option<u64>>,
    size: u64,
)
    requires
        paths.len() <= existing.len(),
    ensures
        forall|path: Seq<PartView>|
            needing(paths, existing, size).contains(path) <==> exists|i: int|
                0 <= i < paths.len() && paths[i] == path && #[trigger] existing[i] != Some(size),
        needing(paths, existing, size).len() == 0 <==> forall|i: int|
            0 <= i < paths.len() ==> #[trigger] existing[i] == Some(size),
    decreases paths.len(),
{
    let needed = needing(paths, existing, size);
    if paths.len() > 0 {
        let fewer = paths.drop_last();
        let last = paths.len() - 1;
        let before = needing(fewer, existing, size);
        lemma_needing_is_exact(fewer, existing, size);
        assert forall|path: Seq<PartView>| needed.contains(path) implies exists|i: int|
            0 <= i < paths.len() && paths[i] == path && #[trigger] existing[i] != Some(size) by {
            if before.contains(path) {
                let i = choose|i: int|
                    0 <= i < fewer.len() && fewer[i] == path && #[trigger] existing[i] != Some(
                        size,
                    );
                assert(paths[i] == path);
            } else {
                let k = choose|k: int| 0 <= k < needed.len() && needed[k] == path;
                if k < before.len() {
                    assert(before[k] == path);
                }
                assert(existing[last] != Some(size));
            }
        }
        assert forall|path: Seq<PartView>|
            (exists|i: int|
                0 <= i < paths.len() && paths[i] == path && #[trigger] existing[i] != Some(
                    size,
                )) implies needed.contains(path) by {
            let i = choose|i: int|
                0 <= i < paths.len() && paths[i] == path && #[trigger] existing[i] != Some(size);
            if i < last {
                assert(fewer[i] == path);
                assert(before.contains(path));
                let k = choose|k: int| 0 <= k < before.len() && before[k] == path;
                assert(needed[k] == path);
            } else {
                assert(needed.last() == path);
                assert(needed[needed.len() - 1] == path);
            }
        }
        if needed.len() == 0 {
            assert(existing[last] == Some(size));
            assert forall|i: int| 0 <= i < paths.len() implies #[trigger] existing[i] == Some(
                size,
            ) by {
                if i < last {
                    assert(0 <= i < fewer.len());
                }
            }
        }
    }
}

/// Each file that was dealt with was copied, was there already, or failed, and only one of
/// these.
pub proof fn lemma_counts_add_up(results: Seq<ResultView>)
    requires
        forall|i: int|
            0 <= i < results.len() ==> ((#[trigger] results[i]).skipped ==> results[i].success),
    ensures
        copied_count(results) + skipped_count(results) <= results.len(),
        (forall|i: int| 0 <= i < results.len() ==> (#[trigger] results[i]).success) <==> (
        copied_count(results) + skipped_count(results) == results.len()),
    decreases results.len(),
{
    if results.len() > 0 {
        let fewer = results.drop_last();
        assert forall|i: int| 0 <= i < fewer.len() && (#[trigger] fewer[i]).skipped implies (
        fewer[i].success) by {
            assert(fewer[i] == results[i]);
        }
        lemma_counts_add_up(fewer);
        let last = results.len() - 1;
        assert(results[last] == results.last());
        if forall|i: int| 0 <= i < results.len() ==> (#[trigger] results[i]).success {
            assert forall|i: int| 0 <= i < fewer.len() implies (#[trigger] fewer[i]).success by {
                assert(fewer[i] == results[i]);
            }
        } else {
            let i = choose|i: int| 0 <= i < results.len() && !(#[trigger] results[i]).success;
            if i < last {
                assert(!fewer[i].success);
            }
        }
    }
}

/// A step of the copying: going to the next file, finding out what is there, and copying.
pub enum RunStep {
    Next(bool),
    Probed(Seq<Option<u64>>),
    Copied(Result<(nat, Seq<char>), IoErrorView>),
}

impl RunView {
    /// Whether this step is due.
    pub open spec fn due(self, step: RunStep) -> bool {
        match step {
            RunStep::Next(_) => self.phase == Phase::Ready,
            RunStep::Probed(existing) => self.phase == Phase::Probing && existing.len()
                == self.destinations.len(),
            RunStep::Copied(outcome) => self.phase == Phase::Copying && (outcome matches Ok(
                (bytes, _),
            ) ==> bytes <= u64::MAX),
        }
    }

    /// The run after a step.
    pub open spec fn did(self, step: RunStep) -> RunView {
        match step {
            RunStep::Next(aborted) => self.next(aborted),
            RunStep::Probed(existing) => self.probed(existing),
            RunStep::Copied(outcome) => self.copied(outcome),
        }
    }

    /// The run after these steps.
    pub open spec fn did_all(self, steps: Seq<RunStep>) -> RunView
        decreases steps.len(),
    {
        if steps.len() == 0 {
            self
        } else {
            self.did_all(steps.drop_last()).did(steps.last())
        }
    }

    /// Whether these steps are due, one after the other.
    pub open spec fn due_all(self, steps: Seq<RunStep>) -> bool
        decreases steps.len(),
    {
        steps.len() > 0 ==> self.due_all(steps.drop_last()) && self.did_all(steps.drop_last()).due(
            steps.last(),
        )
    }
}

/// Whether a step stops the copying before its end.
pub open spec fn stops(step: RunStep) -> bool {
    match step {
        RunStep::Next(aborted) => aborted,
        RunStep::Probed(_) => false,
        RunStep::Copied(outcome) => outcome matches Err(error) && error.kind
            == ErrorKind::Interrupted,
    }
}

/// The results are at every moment those of the first files, in the order of the files, and
/// the byte counts are those of the results. Copying that is over without having been stopped
/// has a result for every file.
pub proof fn lemma_every_file_has_a_result(
    files: Seq<EntryView>,
    destinations: Seq<Seq<PartView>>,
    steps: Seq<RunStep>,
)
    requires
        RunView::start(files, destinations).due_all(steps),
    ensures
        ({
            let run = RunView::start(files, destinations).did_all(steps);
            &&& run.wf()
            &&& run.files == files
            &&& run.destinations == destinations
            &&& run.phase == Phase::Over && (forall|k: int|
                0 <= k < steps.len() ==> !stops(#[trigger] steps[k])) ==> run.results.len()
                == files.len()
        }),
    decreases steps.len(),
{
    let start = RunView::start(files, destinations);
    if steps.len() > 0 {
        let fewer = steps.drop_last();
        let before = start.did_all(fewer);
        let after = start.did_all(steps);
        lemma_every_file_has_a_result(files, destinations, fewer);
        assert(steps.last() == steps[steps.len() - 1]);
        match steps.last() {
            RunStep::Next(_) => {},
            RunStep::Probed(existing) => {
                if before.to_copy(existing).len() == 0 {
                    lemma_pushed(before, after);
                }
            },
            RunStep::Copied(outcome) => {
                match outcome {
                    Ok(_) => {
                        lemma_pushed(before, after);
                    },
                    Err(error) => {
                        if error.kind != ErrorKind::Interrupted {
                            lemma_pushed(before, after);
                        }
                    },
                }
            },
        }
    }
}

/// Copying that finds a file of the right size at every place of every file hands out no place
/// to copy to, and has for each file it has come to that it was there already.
pub proof fn lemma_present_files_are_skipped(
    files: Seq<EntryView>,
    destinations: Seq<Seq<PartView>>,
    steps: Seq<RunStep>,
)
    requires
        RunView::start(files, destinations).due_all(steps),
        forall|k: int, d: int|
            0 <= k < steps.len() && steps[k] is Probed && 0 <= d < destinations.len()
                ==> #[trigger] steps[k]->Probed_0[d] == Some(
                RunView::start(files, destinations).did_all(steps.take(k)).current().size,
            ),
    ensures
        ({
            let run = RunView::start(files, destinations).did_all(steps);
            &&& forall|k: int| 0 <= k < steps.len() ==> !(#[trigger] steps[k] is Copied)
            &&& run.phase != Phase::Copying
            &&& run.copied_bytes == 0
            &&& run.results.len() <= files.len()
            &&& forall|i: int|
                0 <= i < run.results.len() ==> #[trigger] run.results[i] == skipped_result(
                    files[i],
                )
        }),
    decreases steps.len(),
{
    let start = RunView::start(files, destinations);
    if steps.len() > 0 {
        let fewer = steps.drop_last();
        let before = start.did_all(fewer);
        let last = steps.len() - 1;
        assert forall|k: int, d: int|
            0 <= k < fewer.len() && fewer[k] is Probed && 0 <= d < destinations.len() implies (
        #[trigger] fewer[k]->Probed_0[d]) == Some(start.did_all(fewer.take(k)).current().size) by {
            assert(fewer.take(k) =~= steps.take(k));
            assert(steps[k]->Probed_0[d] == fewer[k]->Probed_0[d]);
        }
        lemma_present_files_are_skipped(files, destinations, fewer);
        lemma_every_file_has_a_result(files, destinations, fewer);
        assert(steps.last() == steps[last]);
        assert(steps.take(last) =~= fewer);
        assert forall|k: int| 0 <= k < steps.len() implies !(#[trigger] steps[k] is Copied) by {
            if k < last {
                assert(fewer[k] == steps[k]);
            }
        }
        if let RunStep::Probed(existing) = steps.last() {
            let paths = places(destinations, before.current().relative_path);
            lemma_needing_is_exact(paths, existing, before.current().size);
            assert forall|d: int| 0 <= d < paths.len() implies #[trigger] existing[d] == Some(
                before.current().size,
            ) by {
                assert(steps[last]->Probed_0[d] == existing[d]);
            }
            assert(before.to_copy(existing).len() == 0);
        }
    }
}

/// Whether a result is what its model says, field by field.
pub open spec fn shows(result: CopyResult, view: ResultView) -> bool {
    &&& result.relative_path@ == view.relative_path
    &&& result.source_path@ == view.source_path
    &&& result.size == view.size
    &&& result.inflight_hash@ == view.inflight_hash
    &&& result.success == view.success
    &&& result.skipped == view.skipped
    &&& match result.error {
        Some(text) => view.error == Some(text@),
        None => view.error is None,
    }
}

/// A temporary path has the components of its destination, with `.tmp` behind the name, or as the
/// name where there is none.
pub proof fn lemma_tmp_path_adds_a_suffix(dest: Seq<PartView>)
    ensures
        dest.len() > 0 && dest.last() is Normal ==> tmp_path(dest) == dest.drop_last().push(
            PartView::Normal(dest.last()->Normal_0 + seq![46u8, 116u8, 109u8, 112u8]),
        ),
        dest.len() == 0 || !(dest.last() is Normal) ==> tmp_path(dest) == dest.push(
            PartView::Normal(seq![46u8, 116u8, 109u8, 112u8]),
        ),
{
    assert(Seq::<u8>::empty() + tmp_suffix() =~= tmp_suffix());
}

/// A file in a destination lies at all its names below it, and seen from there it is the file as
/// it lies below the source.
pub proof fn lemma_places_keep_the_names(
    destinations: Seq<Seq<PartView>>,
    relative: Seq<PartView>,
    d: int,
)
    requires
        0 <= d < destinations.len(),
        is_descent(relative),
    ensures
        places(destinations, relative).len() == destinations.len(),
        places(destinations, relative)[d] == destinations[d] + relative,
        stripped(places(destinations, relative)[d], destinations[d]) == Some(relative),
{
    lemma_joined(destinations[d], relative);
    lemma_strip_undoes_join(destinations[d], relative);
    if relative.len() > 0 {
        assert(relative[0] is Normal);
    } else {
        assert(destinations[d] + relative =~= destinations[d]);
    }
}

/// At every moment of a copying each result has the place and the source of its file, and tells
/// one of three things: the file was there already, with no hash and the size that was found at
/// the source; it was copied; or it failed, with a message and no hash.
pub proof fn lemma_results_are_of_their_files(
    files: Seq<EntryView>,
    destinations: Seq<Seq<PartView>>,
    steps: Seq<RunStep>,
    i: int,
)
    requires
        RunView::start(files, destinations).due_all(steps),
        0 <= i < RunView::start(files, destinations).did_all(steps).results.len(),
    ensures
        ({
            let result = RunView::start(files, destinations).did_all(steps).results[i];
            &&& i < files.len()
            &&& result.relative_path == files[i].relative_path
            &&& result.source_path == files[i].absolute_path
            &&& result.skipped ==> result.success && result.size == files[i].size
                && result.inflight_hash.len() == 0
            &&& result.success <==> result.error is None
            &&& !result.success ==> result.size == files[i].size && result.inflight_hash.len() == 0
                && !result.skipped
        }),
{
    lemma_every_file_has_a_result(files, destinations, steps);
    let run = RunView::start(files, destinations).did_all(steps);
    assert(RunView::stands_for(run.results[i], files[i]));
}

/// A step that records a result records what happened: the size and the hash that the copying of
/// the file reported, or its failure; and it leaves all earlier results as they are.
pub proof fn lemma_results_record_what_happened(
    files: Seq<EntryView>,
    destinations: Seq<Seq<PartView>>,
    steps: Seq<RunStep>,
)
    requires
        steps.len() > 0,
        RunView::start(files, destinations).due_all(steps),
    ensures
        ({
            let before = RunView::start(files, destinations).did_all(steps.drop_last());
            let now = RunView::start(files, destinations).did_all(steps);
            let n = before.results.len() as int;
            &&& n <= now.results.len() <= n + 1
            &&& now.results.take(n) == before.results
            &&& steps.last() is Next ==> now.results.len() == n
            &&& steps.last() matches RunStep::Probed(existing) ==> (now.results.len() == n + 1
                <==> forall|d: int|
                0 <= d < destinations.len() ==> #[trigger] existing[d] == Some(files[n].size))
            &&& steps.last() matches RunStep::Probed(_) ==> now.results.len() == n + 1
                ==> now.results[n].skipped
            &&& steps.last() matches RunStep::Copied(Ok((bytes, hash))) ==> now.results.len() == n
                + 1 && now.results[n].success && !now.results[n].skipped && now.results[n].size
                == bytes && now.results[n].inflight_hash == hash
            &&& steps.last() matches RunStep::Copied(Err(error)) ==> (now.results.len() == n + 1
                <==> error.kind != ErrorKind::Interrupted)
            &&& steps.last() matches RunStep::Copied(Err(error)) ==> now.results.len() == n + 1
                ==> !now.results[n].success && now.results[n].error == Some(error.message)
        }),
{
    let before = RunView::start(files, destinations).did_all(steps.drop_last());
    let now = RunView::start(files, destinations).did_all(steps);
    let n = before.results.len() as int;
    lemma_every_file_has_a_result(files, destinations, steps.drop_last());
    assert(now.results.take(n) =~= before.results);
    if let RunStep::Probed(existing) = steps.last() {
        lemma_needing_is_exact(
            places(destinations, files[n].relative_path),
            existing,
            files[n].size,
        );
    }
}

/// Counting the results that were copied, and those that were there already, counts exactly
/// these.
pub proof fn lemma_counts_are_of_the_results(results: Seq<ResultView>)
    ensures
        copied_count(results) == results.filter(
            |result: ResultView| result.success && !result.skipped,
        ).len(),
        skipped_count(results) == results.filter(|result: ResultView| result.skipped).len(),
    decreases results.len(),
{
    reveal(Seq::filter);
    if results.len() > 0 {
        lemma_counts_are_of_the_results(results.drop_last());
    }
}

/// The sizes of files, added up, are those of the first ones and that of the last; the bytes of
/// results are those of the ones that are not failed, and without the skipped ones if these do
/// not count.
pub proof fn lemma_sizes_add_up(
    files: Seq<EntryView>,
    file: EntryView,
    results: Seq<ResultView>,
    result: ResultView,
    with_skipped: bool,
)
    ensures
        total_size(Seq::empty()) == 0,
        total_size(files.push(file)) == total_size(files) + file.size,
        result_bytes(Seq::empty(), with_skipped) == 0,
        result_bytes(results.push(result), with_skipped) == result_bytes(results, with_skipped)
            + if result.success && !(result.skipped && !with_skipped) {
            result.size as nat
        } else {
            0
        },
{
    assert(files.push(file).drop_last() =~= files);
    assert(results.push(result).drop_last() =~= results);
}

/// The places that need a copy come in the order of the destinations.
pub proof fn lemma_needing_keeps_order(
    paths: Seq<Seq<PartView>>,
    existing: Seq<Option<u64>>,
    size: u64,
    a: int,
    b: int,
)
    requires
        paths.len() <= existing.len(),
        0 <= a < b < needing(paths, existing, size).len(),
    ensures
        exists|i: int, j: int|
            0 <= i < j < paths.len() && #[trigger] paths[i] == needing(paths, existing, size)[a]
                && #[trigger] paths[j] == needing(paths, existing, size)[b],
    decreases paths.len(),
{
    let fewer = paths.drop_last();
    let before = needing(fewer, existing, size);
    let last = paths.len() - 1;
    if b < before.len() {
        lemma_needing_keeps_order(fewer, existing, size, a, b);
        let (i, j) = choose|i: int, j: int|
            0 <= i < j < fewer.len() && #[trigger] fewer[i] == before[a] && #[trigger] fewer[j]
                == before[b];
        assert(paths[i] == fewer[i]);
        assert(paths[j] == fewer[j]);
    } else {
        lemma_needing_is_exact(fewer, existing, size);
        assert(before.contains(before[a]));
        let i = choose|i: int|
            0 <= i < fewer.len() && fewer[i] == before[a] && #[trigger] existing[i] != Some(size);
        assert(paths[i] == fewer[i]);
        assert(paths[last] == paths.last());
    }
}

} // verus!
