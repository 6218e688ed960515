//! Verifying all files on all devices at once.
use vstd::prelude::*;
use vstd::string::*;

use crate::engine::{places, result_bytes, result_views, shows, CopyResult, ResultView};
use crate::failure::{ErrorKind, IoError};
use crate::path::{
    is_descent, joined, lemma_joined, lemma_strip_undoes_join, path_views, stripped, FilePath,
    PartView,
};
use crate::verdict::{
    failure_views, hash_view, hash_views, judge_file, judged, offset_of, FailureView, FileFailure,
    HashView, VerdictView,
};
use crate::verify::{
    numbered_views, sized_views, transfer_checks, transfer_plan, VerifyMode,
};

verus! {

/// The places of the results that a verification looks at, in order: all but the failed ones.
pub open spec fn verifiable(results: Seq<ResultView>) -> Seq<nat>
    decreases results.len(),
{
    if results.len() == 0 {
        Seq::empty()
    } else {
        let before = verifiable(results.drop_last());
        if results.last().success {
            before.push((results.len() - 1) as nat)
        } else {
            before
        }
    }
}

/// The model of a device's answer that may not have come yet.
pub open spec fn slot_view(slot: Option<Result<String, IoError>>) -> Option<HashView> {
    match slot {
        Some(answer) => Some(hash_view(answer)),
        None => None,
    }
}

/// The models of the answers for one file.
pub open spec fn row_view(row: Seq<Option<Result<String, IoError>>>) -> Seq<Option<HashView>> {
    row.map_values(|slot: Option<Result<String, IoError>>| slot_view(slot))
}

/// The models of the answers for all files.
pub open spec fn pending_views(pending: Seq<Vec<Option<Result<String, IoError>>>>) -> Seq<
    Seq<Option<HashView>>,
> {
    pending.map_values(|row: Vec<Option<Result<String, IoError>>>| row_view(row@))
}

/// The models of a list of places.
pub open spec fn index_views(indices: Seq<usize>) -> Seq<nat> {
    indices.map_values(|i: usize| i as nat)
}

/// Room for an answer of each device for each file.
pub open spec fn no_answers(files: nat, devices: nat) -> Seq<Seq<Option<HashView>>> {
    Seq::new(files, |s: int| Seq::new(devices, |d: int| None::<HashView>))
}

/// What became of one file.
#[derive(Debug)]
pub enum FileOutcome {
    /// Verified, with this hash.
    Verified(String),
    Failed(Vec<FileFailure>),
    /// A worker ended before it had answered for the file.
    WorkerExited,
}

/// The model of a `FileOutcome`.
pub enum OutcomeView {
    Verified(Seq<char>),
    Failed(Seq<FailureView>),
    WorkerExited,
}

impl View for FileOutcome {
    type V = OutcomeView;

    open spec fn view(&self) -> OutcomeView {
        match self {
            FileOutcome::Verified(hash) => OutcomeView::Verified(hash@),
            FileOutcome::Failed(failures) => OutcomeView::Failed(failure_views(failures@)),
            FileOutcome::WorkerExited => OutcomeView::WorkerExited,
        }
    }
}

/// What is to be reported of a file: its number, its place among the results, and what became
/// of it.
#[derive(Debug)]
pub struct FileReport {
    pub seq: usize,
    pub index: usize,
    pub outcome: FileOutcome,
}

/// The model of a `FileReport`.
pub struct ReportView {
    pub seq: nat,
    pub index: nat,
    pub outcome: OutcomeView,
}

impl View for FileReport {
    type V = ReportView;

    open spec fn view(&self) -> ReportView {
        ReportView { seq: self.seq as nat, index: self.index as nat, outcome: self.outcome@ }
    }
}

/// The models of a list of reports.
pub open spec fn report_views(reports: Seq<FileReport>) -> Seq<ReportView> {
    reports.map_values(|report: FileReport| report@)
}

/// What happened while the devices are at work.
#[derive(Debug)]
pub enum VerifyEvent {
    /// A device answered for a file: which file, which device, and the answer.
    Answer(usize, usize, Result<String, IoError>),
    /// Nothing for a while.
    Timeout,
    /// All workers have ended.
    Disconnected,
}

/// The model of a `VerifyEvent`.
pub enum VerifyEventView {
    Answer(nat, nat, HashView),
    Timeout,
    Disconnected,
}

impl View for VerifyEvent {
    type V = VerifyEventView;

    open spec fn view(&self) -> VerifyEventView {
        match self {
            VerifyEvent::Answer(seq, device, answer) => VerifyEventView::Answer(
                *seq as nat,
                *device as nat,
                hash_view(*answer),
            ),
            VerifyEvent::Timeout => VerifyEventView::Timeout,
            VerifyEvent::Disconnected => VerifyEventView::Disconnected,
        }
    }
}

/// A verification in progress. Files are judged in order, each once all devices have answered
/// for it, so that a fast device never waits for a slow one.
#[derive(Debug)]
pub struct VerifyRun {
    results: Vec<CopyResult>,
    destinations: usize,
    with_source: bool,
    indices: Vec<usize>,
    pending: Vec<Vec<Option<Result<String, IoError>>>>,
    next: usize,
    all_ok: bool,
    verified: usize,
    aborted: bool,
    over: bool,
}

/// The model of a `VerifyRun`.
pub struct VerifyView {
    pub results: Seq<ResultView>,
    pub destinations: nat,
    pub with_source: bool,
    pub indices: Seq<nat>,
    pub pending: Seq<Seq<Option<HashView>>>,
    pub next: nat,
    pub all_ok: bool,
    pub verified: nat,
    pub aborted: bool,
    pub over: bool,
}

impl View for VerifyRun {
    type V = VerifyView;

    closed spec fn view(&self) -> VerifyView {
        VerifyView {
            results: result_views(self.results@),
            destinations: self.destinations as nat,
            with_source: self.with_source,
            indices: index_views(self.indices@),
            pending: pending_views(self.pending@),
            next: self.next as nat,
            all_ok: self.all_ok,
            verified: self.verified as nat,
            aborted: self.aborted,
            over: self.over,
        }
    }
}

/// `results` with the hash of a verified file filled in where none was recorded.
pub open spec fn recorded(results: Seq<ResultView>, i: int, verdict: VerdictView) -> Seq<
    ResultView,
> {
    if verdict.failures.len() == 0 && results[i].inflight_hash.len() == 0 && verdict.reference
        is Some {
        results.update(i, ResultView { inflight_hash: verdict.reference->0, ..results[i] })
    } else {
        results
    }
}

impl VerifyView {
    /// The number of devices.
    pub open spec fn devices(self) -> nat {
        self.destinations + offset_of(self.with_source)
    }

    /// A verification before any answer has come.
    pub open spec fn start(
        results: Seq<ResultView>,
        destinations: nat,
        with_source: bool,
    ) -> VerifyView {
        let indices = verifiable(results);
        VerifyView {
            results,
            destinations,
            with_source,
            indices,
            pending: no_answers(indices.len(), destinations + offset_of(with_source)),
            next: 0,
            all_ok: true,
            verified: 0,
            aborted: false,
            over: false,
        }
    }

    /// There is room for an answer of each device for each file, and no two files share a
    /// result.
    pub open spec fn wf(self) -> bool {
        &&& self.pending.len() == self.indices.len()
        &&& forall|s: int|
            0 <= s < self.pending.len() ==> (#[trigger] self.pending[s]).len() == self.devices()
        &&& forall|s: int|
            0 <= s < self.indices.len() ==> #[trigger] self.indices[s] < self.results.len()
        &&& forall|s: int, t: int|
            0 <= s < t < self.indices.len() ==> #[trigger] self.indices[s]
                != #[trigger] self.indices[t]
        &&& self.next <= self.indices.len()
        &&& self.verified <= self.next
        &&& self.aborted ==> self.over
    }

    /// Whether all devices have answered for the file whose turn it is.
    pub open spec fn complete(self) -> bool {
        &&& self.next < self.indices.len()
        &&& forall|d: int|
            0 <= d < self.pending[self.next as int].len() ==> (
            #[trigger] self.pending[self.next as int][d]) is Some
    }

    /// The answers for the file whose turn it is.
    pub open spec fn row(self) -> Seq<HashView> {
        self.pending[self.next as int].map_values(|slot: Option<HashView>| slot->0)
    }

    /// Whether a device was stopped at the file whose turn it is.
    pub open spec fn interrupted(self) -> bool {
        exists|d: int|
            0 <= d < self.row().len() && (#[trigger] self.row()[d]) is Err && self.row()[d]->Err_0.kind
                == ErrorKind::Interrupted
    }

    /// What the answers say of the file whose turn it is.
    pub open spec fn verdict(self) -> VerdictView {
        judged(
            self.with_source,
            self.destinations,
            self.results[self.indices[self.next as int] as int].inflight_hash,
            self.row(),
        )
    }

    /// The verification after the file whose turn it is was judged.
    pub open spec fn advanced(self) -> VerifyView {
        let ok = self.verdict().failures.len() == 0;
        VerifyView {
            results: recorded(
                self.results,
                self.indices[self.next as int] as int,
                self.verdict(),
            ),
            next: self.next + 1,
            all_ok: self.all_ok && ok,
            verified: self.verified + if ok {
                1nat
            } else {
                0nat
            },
            ..self
        }
    }

    /// What is reported of the file whose turn it is when it is judged.
    pub open spec fn report(self) -> ReportView {
        let index = self.indices[self.next as int];
        ReportView {
            seq: self.next,
            index,
            outcome: if self.verdict().failures.len() == 0 {
                OutcomeView::Verified(self.advanced().results[index as int].inflight_hash)
            } else {
                OutcomeView::Failed(self.verdict().failures)
            },
        }
    }

    /// The verification after all files were judged that can be, unless one was stopped.
    pub open spec fn drained(self) -> VerifyView
        decreases self.indices.len() - self.next,
    {
        if !self.complete() {
            self
        } else if self.interrupted() {
            VerifyView { aborted: true, ..self }
        } else {
            self.advanced().drained()
        }
    }

    /// What is reported while all files are judged that can be.
    pub open spec fn drained_reports(self) -> Seq<ReportView>
        decreases self.indices.len() - self.next,
    {
        if !self.complete() || self.interrupted() {
            Seq::empty()
        } else {
            seq![self.report()] + self.advanced().drained_reports()
        }
    }

    /// Whether this event can happen: an answer is for a file that has not been judged.
    pub open spec fn expects(self, event: VerifyEventView) -> bool {
        match event {
            VerifyEventView::Answer(seq, device, _) => self.next <= seq < self.indices.len()
                && device < self.devices(),
            _ => true,
        }
    }

    /// The verification after an answer was taken down.
    pub open spec fn taken(self, event: VerifyEventView) -> VerifyView {
        match event {
            VerifyEventView::Answer(seq, device, answer) => VerifyView {
                pending: self.pending.update(
                    seq as int,
                    self.pending[seq as int].update(device as int, Some(answer)),
                ),
                ..self
            },
            _ => self,
        }
    }

    /// The verification after an event and all that follows from it. It is over when it was
    /// stopped, when all files were judged, and when no answer can come any more; what has
    /// not been judged then counts as failed.
    pub open spec fn stepped(self, event: VerifyEventView) -> VerifyView {
        let drained = self.taken(event).drained();
        if drained.aborted || drained.next == drained.indices.len() {
            VerifyView { over: true, ..drained }
        } else if event is Disconnected {
            VerifyView { all_ok: false, over: true, ..drained }
        } else {
            drained
        }
    }

    /// What is to be reported after an event.
    pub open spec fn reports(self, event: VerifyEventView) -> Seq<ReportView> {
        let taken = self.taken(event);
        let drained = taken.drained();
        if event is Disconnected && !drained.aborted && drained.next < drained.indices.len() {
            taken.drained_reports().push(
                ReportView {
                    seq: drained.next,
                    index: drained.indices[drained.next as int],
                    outcome: OutcomeView::WorkerExited,
                },
            )
        } else {
            taken.drained_reports()
        }
    }

    /// Whether the verification has succeeded.
    pub open spec fn passed(self) -> bool {
        !self.aborted && self.all_ok
    }
}

/// The places that a verification looks at are those of the results that are not failed, each
/// once, in order.
pub proof fn lemma_verifiable(results: Seq<ResultView>)
    ensures
        verifiable(results).len() <= results.len(),
        forall|s: int|
            0 <= s < verifiable(results).len() ==> (#[trigger] verifiable(results)[s])
                < results.len() && results[verifiable(results)[s] as int].success,
        forall|s: int, t: int|
            0 <= s < t < verifiable(results).len() ==> #[trigger] verifiable(results)[s]
                < #[trigger] verifiable(results)[t],
        forall|i: int|
            0 <= i < results.len() && (#[trigger] results[i]).success ==> verifiable(
                results,
            ).contains(i as nat),
    decreases results.len(),
{
    if results.len() > 0 {
        let fewer = results.drop_last();
        let before = verifiable(fewer);
        let all = verifiable(results);
        lemma_verifiable(fewer);
        assert forall|s: int| 0 <= s < all.len() implies (#[trigger] all[s]) < results.len()
            && results[all[s] as int].success by {
            if s < before.len() {
                assert(all[s] == before[s]);
                assert(fewer[before[s] as int] == results[before[s] as int]);
            }
        }
        assert forall|s: int, t: int| 0 <= s < t < all.len() implies #[trigger] all[s]
            < #[trigger] all[t] by {
            assert(all[s] == before[s]);
            if t < before.len() {
                assert(all[t] == before[t]);
            }
        }
        assert forall|i: int| 0 <= i < results.len() && (#[trigger] results[i]).success implies (
        all.contains(i as nat)) by {
            if i < fewer.len() {
                assert(fewer[i].success);
                let s = choose|s: int| 0 <= s < before.len() && before[s] == i as nat;
                assert(all[s] == i as nat);
            } else {
                assert(all[all.len() - 1] == i as nat);
            }
        }
    }
}

/// The places of the results that a verification looks at.
fn verifiable_indices(results: &Vec<CopyResult>) -> (indices: Vec<usize>)
    ensures
        index_views(indices@) == verifiable(result_views(results@)),
{
    let ghost views = result_views(results@);
    let mut indices: Vec<usize> = Vec::new();
    let mut i: usize = 0;
    assert(views.take(0) =~= Seq::empty());
    assert(index_views(indices@) =~= Seq::empty());
    while i < results.len()
        invariant
            i <= results@.len(),
            views == result_views(results@),
            index_views(indices@) == verifiable(views.take(i as int)),
        decreases results@.len() - i,
    {
        let ghost before = index_views(indices@);
        proof {
            assert(views.take(i + 1).drop_last() =~= views.take(i as int));
            assert(views.take(i + 1).last() == views[i as int]);
        }
        if results[i].success {
            indices.push(i);
            assert(index_views(indices@) =~= before.push(i as nat));
        }
        i += 1;
    }
    assert(views.take(i as int) =~= views);
    indices
}

/// Room for an answer of each device for each file.
fn empty_slots(files: usize, devices: usize) -> (pending: Vec<
    Vec<Option<Result<String, IoError>>>,
>)
    ensures
        pending_views(pending@) == no_answers(files as nat, devices as nat),
{
    let mut pending: Vec<Vec<Option<Result<String, IoError>>>> = Vec::new();
    while pending.len() < files
        invariant
            pending@.len() <= files,
            forall|s: int| #![trigger pending@[s]]
                0 <= s < pending@.len() ==> row_view(pending@[s]@) == Seq::new(
                    devices as nat,
                    |d: int| None::<HashView>,
                ),
        decreases files - pending@.len(),
    {
        let mut row: Vec<Option<Result<String, IoError>>> = Vec::new();
        while row.len() < devices
            invariant
                row@.len() <= devices,
                forall|d: int| #![trigger row@[d]] 0 <= d < row@.len() ==> row@[d] is None,
            decreases devices - row@.len(),
        {
            row.push(None);
        }
        assert(row_view(row@) =~= Seq::new(devices as nat, |d: int| None::<HashView>));
        pending.push(row);
    }
    assert(pending_views(pending@) =~= no_answers(files as nat, devices as nat));
    pending
}

/// The path at which a device has a file: the source has it where it was found, and a
/// destination at its place there.
pub open spec fn device_path(
    destinations: Seq<Seq<PartView>>,
    with_source: bool,
    device: int,
    result: ResultView,
) -> Seq<PartView> {
    if with_source && device == 0 {
        result.source_path
    } else {
        joined(destinations[device - offset_of(with_source)], result.relative_path)
    }
}

/// The files that a device is to hash, numbered from zero, in the order of the results.
pub open spec fn device_files(
    results: Seq<ResultView>,
    destinations: Seq<Seq<PartView>>,
    with_source: bool,
    device: int,
) -> Seq<(nat, Seq<PartView>)> {
    let indices = verifiable(results);
    Seq::new(
        indices.len(),
        |s: int|
            (
                s as nat,
                device_path(destinations, with_source, device, results[indices[s] as int]),
            ),
    )
}

/// One device's share of a verification.
#[derive(Debug)]
pub struct DeviceJob {
    /// The files to hash, numbered.
    pub files: Vec<(usize, FilePath)>,
    /// Their sizes, added up.
    pub total: u64,
}

/// What is to be done to verify the results.
pub enum Verification {
    /// Compare sizes.
    Transfer(Vec<CopyResult>, Vec<(FilePath, u64)>),
    /// There is nothing to look at, which counts as success.
    Nothing(Vec<CopyResult>),
    /// Let each device hash its files; all their sizes come to the last number.
    Devices(VerifyRun, Vec<DeviceJob>, u64),
}

/// The files that a device is to hash.
fn job_files(
    results: &Vec<CopyResult>,
    indices: &Vec<usize>,
    destinations: &Vec<FilePath>,
    with_source: bool,
    device: usize,
) -> (files: Vec<(usize, FilePath)>)
    requires
        index_views(indices@) == verifiable(result_views(results@)),
        device < destinations@.len() + offset_of(with_source),
    ensures
        numbered_views(files@) == device_files(
            result_views(results@),
            path_views(destinations@),
            with_source,
            device as int,
        ),
{
    let ghost views = result_views(results@);
    let ghost wanted = device_files(views, path_views(destinations@), with_source, device as int);
    proof {
        lemma_verifiable(views);
    }
    let mut files: Vec<(usize, FilePath)> = Vec::new();
    let mut s: usize = 0;
    while s < indices.len()
        invariant
            s <= indices@.len(),
            indices@.len() == wanted.len(),
            views == result_views(results@),
            index_views(indices@) == verifiable(views),
            forall|k: int|
                0 <= k < verifiable(views).len() ==> #[trigger] verifiable(views)[k] < views.len(),
            wanted == device_files(
                views,
                path_views(destinations@),
                with_source,
                device as int,
            ),
            device < destinations@.len() + offset_of(with_source),
            files@.len() == s,
            forall|k: int|
                0 <= k < s ==> ((#[trigger] files@[k]).0 as nat, files@[k].1@) == wanted[k],
        decreases indices@.len() - s,
    {
        assert(verifiable(views)[s as int] == indices@[s as int] as nat);
        let result = &results[indices[s]];
        assert(views[indices@[s as int] as int] == result@);
        let path = if with_source && device == 0 {
            result.source_path.clone()
        } else {
            let k: usize = if with_source {
                device - 1
            } else {
                device
            };
            destinations[k].join(&result.relative_path)
        };
        files.push((s, path));
        s += 1;
    }
    assert(numbered_views(files@) =~= wanted);
    files
}

/// The sizes of the results that a verification looks at, added up.
fn verifiable_bytes(results: &Vec<CopyResult>) -> (total: u64)
    requires
        result_bytes(result_views(results@), true) <= u64::MAX,
    ensures
        total == result_bytes(result_views(results@), true),
{
    let ghost views = result_views(results@);
    let mut total: u64 = 0;
    let mut i: usize = 0;
    assert(views.take(0) =~= Seq::empty());
    while i < results.len()
        invariant
            i <= results@.len(),
            views == result_views(results@),
            result_bytes(views, true) <= u64::MAX,
            total == result_bytes(views.take(i as int), true),
        decreases results@.len() - i,
    {
        proof {
            lemma_result_bytes_grow(views, i + 1);
            assert(views.take(i + 1).drop_last() =~= views.take(i as int));
            assert(views.take(i + 1).last() == views[i as int]);
        }
        if results[i].success {
            total = total + results[i].size;
        }
        i += 1;
    }
    assert(views.take(i as int) =~= views);
    total
}

proof fn lemma_result_bytes_grow(results: Seq<ResultView>, i: int)
    requires
        0 <= i <= results.len(),
    ensures
        result_bytes(results.take(i), true) <= result_bytes(results, true),
    decreases results.len() - i,
{
    if i == results.len() {
        assert(results.take(i) =~= results);
    } else {
        lemma_result_bytes_grow(results, i + 1);
        assert(results.take(i + 1).drop_last() =~= results.take(i));
    }
}

/// Begins the verification of every result but the failed ones. Files that were there already
/// are looked at too: their hash is not known from copying, so it is taken from the source
/// or from a destination, and recorded.
pub fn verify_all(results: Vec<CopyResult>, destinations: &Vec<FilePath>, mode: VerifyMode) -> (
    verification: Verification)
    requires
        mode == VerifyMode::Source ==> destinations@.len() < usize::MAX,
        mode != VerifyMode::Transfer ==> result_bytes(result_views(results@), true) * (
        destinations@.len() + offset_of(mode == VerifyMode::Source)) <= u64::MAX,
    ensures
        ({
            let views = result_views(results@);
            let dests = path_views(destinations@);
            let with_source = mode == VerifyMode::Source;
            match verification {
                Verification::Transfer(same, checks) => {
                    &&& mode == VerifyMode::Transfer
                    &&& same == results
                    &&& sized_views(checks@) == transfer_plan(views, dests)
                },
                Verification::Nothing(same) => {
                    &&& mode != VerifyMode::Transfer
                    &&& verifiable(views).len() == 0
                    &&& same == results
                },
                Verification::Devices(run, jobs, overall) => {
                    &&& mode != VerifyMode::Transfer
                    &&& verifiable(views).len() > 0
                    &&& run@ == VerifyView::start(views, dests.len(), with_source)
                    &&& run@.wf()
                    &&& jobs@.len() == run@.devices()
                    &&& forall|d: int|
                        #![trigger jobs@[d]]
                        0 <= d < jobs@.len() ==> numbered_views(jobs@[d].files@) == device_files(
                            views,
                            dests,
                            with_source,
                            d,
                        ) && jobs@[d].total == result_bytes(views, true)
                    &&& forall|d: int, s: int|
                        #![trigger jobs@[d].files@[s]]
                        0 <= d < jobs@.len() && 0 <= s < jobs@[d].files@.len() ==> {
                            let result = views[verifiable(views)[s] as int];
                            &&& jobs@[d].files@[s].0 == s
                            &&& with_source && d == 0 ==> jobs@[d].files@[s].1@
                                == result.source_path
                            &&& with_source && d > 0 ==> jobs@[d].files@[s].1@ == joined(
                                dests[d - 1],
                                result.relative_path,
                            )
                            &&& !with_source ==> jobs@[d].files@[s].1@ == joined(
                                dests[d],
                                result.relative_path,
                            )
                        }
                    &&& forall|d: int|
                        #![trigger jobs@[d]]
                        0 <= d < jobs@.len() ==> jobs@[d].files@.len() == verifiable(views).len()
                    &&& overall == result_bytes(views, true) * run@.devices()
                },
            }
        }),
{
    let ghost views = result_views(results@);
    let ghost dests = path_views(destinations@);
    if mode == VerifyMode::Transfer {
        let checks = transfer_checks(&results, destinations);
        return Verification::Transfer(results, checks);
    }
    let indices = verifiable_indices(&results);
    assert(index_views(indices@).len() == indices@.len());
    if indices.len() == 0 {
        return Verification::Nothing(results);
    }
    let with_source = mode == VerifyMode::Source;
    let offset: usize = if with_source {
        1
    } else {
        0
    };
    let devices: usize = destinations.len() + offset;
    let ghost bytes = result_bytes(views, true);
    proof {
        lemma_verifiable(views);
        if devices > 0 {
            assert(bytes <= bytes * devices) by (nonlinear_arith)
                requires
                    devices > 0,
                    bytes >= 0,
            ;
        }
    }
    let total: u64 = if devices > 0 {
        verifiable_bytes(&results)
    } else {
        0
    };
    let mut jobs: Vec<DeviceJob> = Vec::new();
    let mut overall: u64 = 0;
    let mut device: usize = 0;
    while device < devices
        invariant
            device <= devices,
            devices == destinations@.len() + offset_of(with_source),
            views == result_views(results@),
            dests == path_views(destinations@),
            dests.len() == destinations@.len(),
            index_views(indices@) == verifiable(views),
            devices > 0 ==> total == bytes,
            bytes == result_bytes(views, true),
            bytes * devices <= u64::MAX,
            overall == bytes * device,
            jobs@.len() == device,
            forall|d: int|
                #![trigger jobs@[d]]
                0 <= d < jobs@.len() ==> numbered_views(jobs@[d].files@) == device_files(
                    views,
                    dests,
                    with_source,
                    d,
                ) && jobs@[d].total == bytes,
        decreases devices - device,
    {
        let files = job_files(&results, &indices, destinations, with_source, device);
        jobs.push(DeviceJob { files, total });
        proof {
            assert(bytes * device + bytes == bytes * (device + 1)) by (nonlinear_arith);
            assert(bytes * (device + 1) <= bytes * devices) by (nonlinear_arith)
                requires
                    device + 1 <= devices,
                    bytes >= 0,
            ;
        }
        overall = overall + total;
        device += 1;
    }
    proof {
        assert forall|d: int| #![trigger jobs@[d]] 0 <= d < jobs@.len() implies jobs@[d].files@.len()
            == verifiable(views).len() by {
            assert(numbered_views(jobs@[d].files@).len() == jobs@[d].files@.len());
        }
        assert forall|d: int, s: int|
            #![trigger jobs@[d].files@[s]]
            0 <= d < jobs@.len() && 0 <= s < jobs@[d].files@.len() implies {
            let result = views[verifiable(views)[s] as int];
            &&& jobs@[d].files@[s].0 == s
            &&& with_source && d == 0 ==> jobs@[d].files@[s].1@ == result.source_path
            &&& with_source && d > 0 ==> jobs@[d].files@[s].1@ == joined(
                dests[d - 1],
                result.relative_path,
            )
            &&& !with_source ==> jobs@[d].files@[s].1@ == joined(dests[d], result.relative_path)
        } by {
            let files = jobs@[d].files@;
            assert(numbered_views(files)[s] == (files[s].0 as nat, files[s].1@));
            assert(numbered_views(files) == device_files(views, dests, with_source, d));
        }
    }
    let pending = empty_slots(indices.len(), devices);
    let run = VerifyRun {
        results,
        destinations: destinations.len(),
        with_source,
        indices,
        pending,
        next: 0,
        all_ok: true,
        verified: 0,
        aborted: false,
        over: false,
    };
    Verification::Devices(run, jobs, overall)
}

/// The answers for a file, once all devices have answered.
fn collect_row(row: &Vec<Option<Result<String, IoError>>>) -> (slots: Option<
    Vec<Result<String, IoError>>,
>)
    ensures
        match slots {
            Some(slots) => {
                &&& forall|d: int| 0 <= d < row@.len() ==> (#[trigger] row_view(row@)[d]) is Some
                &&& hash_views(slots@) == row_view(row@).map_values(
                    |slot: Option<HashView>| slot->0,
                )
            },
            None => exists|d: int|
                0 <= d < row@.len() && (#[trigger] row_view(row@)[d]) is None,
        },
{
    let mut slots: Vec<Result<String, IoError>> = Vec::new();
    let mut d: usize = 0;
    while d < row.len()
        invariant
            d <= row@.len(),
            slots@.len() == d,
            forall|k: int|
                0 <= k < d ==> #[trigger] row_view(row@)[k] == Some(hash_view(slots@[k])),
        decreases row@.len() - d,
    {
        assert(row_view(row@)[d as int] == slot_view(row@[d as int]));
        match &row[d] {
            Some(Ok(hash)) => {
                slots.push(Ok(hash.clone()));
            },
            Some(Err(error)) => {
                slots.push(Err(error.clone()));
            },
            None => {
                return None;
            },
        }
        d += 1;
    }
    assert(hash_views(slots@) =~= row_view(row@).map_values(|slot: Option<HashView>| slot->0));
    Some(slots)
}

/// Whether a device was stopped.
fn any_interrupted(slots: &Vec<Result<String, IoError>>) -> (interrupted: bool)
    ensures
        interrupted == exists|d: int|
            0 <= d < hash_views(slots@).len() && (#[trigger] hash_views(slots@)[d]) is Err
                && hash_views(slots@)[d]->Err_0.kind == ErrorKind::Interrupted,
{
    let mut d: usize = 0;
    while d < slots.len()
        invariant
            d <= slots@.len(),
            forall|k: int|
                0 <= k < d ==> !((#[trigger] hash_views(slots@)[k]) is Err && hash_views(
                    slots@,
                )[k]->Err_0.kind == ErrorKind::Interrupted),
        decreases slots@.len() - d,
    {
        assert(hash_views(slots@)[d as int] == hash_view(slots@[d as int]));
        if let Err(error) = &slots[d] {
            if error.is_interrupted() {
                return true;
            }
        }
        d += 1;
    }
    false
}

impl VerifyRun {
    /// Judges the file whose turn it is by the answers for it.
    fn advance(&mut self, slots: &Vec<Result<String, IoError>>) -> (report: FileReport)
        requires
            old(self)@.wf(),
            !old(self)@.over,
            old(self)@.complete(),
            hash_views(slots@) == old(self)@.row(),
        ensures
            final(self)@ == old(self)@.advanced(),
            final(self)@.wf(),
            report@ == old(self)@.report(),
    {
        let ghost before = self@;
        let seq: usize = self.next;
        let count: usize = self.indices.len();
        assert(before.indices[seq as int] == self.indices@[seq as int] as nat);
        assert(before.pending[seq as int].len() == before.devices());
        let index: usize = self.indices[seq];
        assert(slots@.len() == hash_views(slots@).len());
        let verdict = judge_file(
            self.with_source,
            self.destinations,
            &self.results[index].inflight_hash,
            slots,
        );
        assert(verdict@ == before.verdict());
        assert(verdict@.failures.len() == verdict.failures@.len());
        self.next = seq + 1;
        if verdict.failures.len() == 0 {
            self.verified = self.verified + 1;
            if self.results[index].inflight_hash.as_str().is_empty() {
                if let Some(hash) = verdict.reference {
                    self.results[index].inflight_hash = hash;
                }
            }
            assert(self@.results =~= before.advanced().results);
            let hash = self.results[index].inflight_hash.clone();
            FileReport { seq, index, outcome: FileOutcome::Verified(hash) }
        } else {
            self.all_ok = false;
            FileReport { seq, index, outcome: FileOutcome::Failed(verdict.failures) }
        }
    }

    /// Takes an event, and judges all files that can be judged then. The result is what is to
    /// be reported.
    pub fn step(&mut self, event: VerifyEvent) -> (reports: Vec<FileReport>)
        requires
            old(self)@.wf(),
            !old(self)@.over,
            old(self)@.expects(event@),
        ensures
            final(self)@ == old(self)@.stepped(event@),
            final(self)@.wf(),
            report_views(reports@) == old(self)@.reports(event@),
            reports@.len() == old(self)@.reports(event@).len(),
            forall|k: int|
                #![trigger reports@[k]]
                0 <= k < reports@.len() ==> {
                    let view = old(self)@.reports(event@)[k];
                    &&& reports@[k].seq == view.seq
                    &&& reports@[k].index == view.index
                    &&& match reports@[k].outcome {
                        FileOutcome::Verified(hash) => view.outcome == OutcomeView::Verified(hash@),
                        FileOutcome::Failed(failures) => view.outcome is Failed
                            && view.outcome->Failed_0.len() == failures@.len(),
                        FileOutcome::WorkerExited => view.outcome is WorkerExited,
                    }
                },
    {
        let ghost before = self@;
        let ghost seen = event@;
        let mut disconnected = false;
        match event {
            VerifyEvent::Answer(seq, device, answer) => {
                assert(before.pending[seq as int].len() == before.devices());
                self.pending[seq][device] = Some(answer);
                assert(row_view(self.pending@[seq as int]@) =~= before.pending[seq as int].update(
                    device as int,
                    Some(hash_view(answer)),
                ));
                assert(self@.pending =~= before.taken(seen).pending);
            },
            VerifyEvent::Timeout => {},
            VerifyEvent::Disconnected => {
                disconnected = true;
            },
        }
        let ghost taken = before.taken(seen);
        assert(self@ == taken);
        assert(self@.wf());
        let mut reports: Vec<FileReport> = Vec::new();
        let mut stalled = false;
        let mut interrupted = false;
        assert(report_views(reports@) + self@.drained_reports() =~= self@.drained_reports());
        while !stalled && self.next < self.indices.len()
            invariant
                self@.wf(),
                !self@.over,
                !self@.aborted,
                taken.drained() == self@.drained(),
                taken.drained_reports() == report_views(reports@) + self@.drained_reports(),
                interrupted ==> stalled && self@.complete() && self@.interrupted(),
                stalled && !interrupted ==> !self@.complete(),
            decreases
                    self@.indices.len() - self@.next + if stalled {
                        0int
                    } else {
                        1int
                    },
        {
            let ghost now = self@;
            assert(now.pending[now.next as int] == row_view(self.pending@[now.next as int]@));
            match collect_row(&self.pending[self.next]) {
                Some(slots) => {
                    assert(now.complete());
                    assert(hash_views(slots@) == now.row());
                    stalled = any_interrupted(&slots);
                    interrupted = stalled;
                    if !stalled {
                        let ghost so_far = report_views(reports@);
                        let report = self.advance(&slots);
                        reports.push(report);
                        assert(report_views(reports@) =~= so_far.push(now.report()));
                        assert(report_views(reports@) + self@.drained_reports() =~= so_far
                            + now.drained_reports());
                    }
                },
                None => {
                    stalled = true;
                },
            }
        }
        assert(report_views(reports@) + self@.drained_reports() =~= report_views(reports@));
        if interrupted {
            self.aborted = true;
            self.over = true;
        } else if self.next == self.indices.len() {
            self.over = true;
        } else if disconnected {
            self.all_ok = false;
            self.over = true;
            let ghost so_far = report_views(reports@);
            let index: usize = self.indices[self.next];
            reports.push(
                FileReport { seq: self.next, index, outcome: FileOutcome::WorkerExited },
            );
            assert(report_views(reports@) =~= before.reports(seen));
        }
        proof {
            let views = report_views(reports@);
            assert(views == before.reports(seen));
            assert forall|k: int| #![trigger reports@[k]] 0 <= k < reports@.len() implies {
                let view = before.reports(seen)[k];
                &&& reports@[k].seq == view.seq
                &&& reports@[k].index == view.index
                &&& match reports@[k].outcome {
                    FileOutcome::Verified(hash) => view.outcome == OutcomeView::Verified(hash@),
                    FileOutcome::Failed(failures) => view.outcome is Failed
                        && view.outcome->Failed_0.len() == failures@.len(),
                    FileOutcome::WorkerExited => view.outcome is WorkerExited,
                }
            } by {
                assert(views[k] == reports@[k]@);
            }
        }
        reports
    }

    /// Whether there is nothing more to wait for.
    pub fn is_over(&self) -> (over: bool)
        ensures
            over == self@.over,
    {
        self.over
    }

    /// Whether the verification was stopped.
    pub fn is_aborted(&self) -> (aborted: bool)
        ensures
            aborted == self@.aborted,
    {
        self.aborted
    }

    /// Whether the verification has succeeded.
    pub fn passed(&self) -> (passed: bool)
        ensures
            passed == self@.passed(),
    {
        !self.aborted && self.all_ok
    }

    /// How many files were verified, and how many there are.
    pub fn counts(&self) -> (counts: (usize, usize))
        ensures
            counts.0 == self@.verified,
            counts.1 == self@.indices.len(),
    {
        (self.verified, self.indices.len())
    }

    /// The result at the place `index`.
    pub fn result(&self, index: usize) -> (result: &CopyResult)
        requires
            index < self@.results.len(),
        ensures
            result@ == self@.results[index as int],
            shows(*result, self@.results[index as int]),
    {
        assert(self@.results[index as int] == self.results@[index as int]@);
        &self.results[index]
    }

    /// The results, with the hashes that the verification found filled in.
    pub fn into_results(self) -> (results: Vec<CopyResult>)
        ensures
            result_views(results@) == self@.results,
            results@.len() == self@.results.len(),
            forall|i: int|
                #![trigger results@[i]]
                0 <= i < results@.len() ==> shows(results@[i], self@.results[i]),
    {
        proof {
            assert forall|i: int| #![trigger self.results@[i]] 0 <= i < self.results@.len() implies
                shows(self.results@[i], self@.results[i]) by {
                assert(self@.results[i] == self.results@[i]@);
            }
        }
        self.results
    }
}

/// Each destination hashes a file where the copying put it: at the destination followed by all
/// names that the file has below the source, so that seen from the destination it is the file as
/// it lies below the source. The source hashes it where it was found.
pub proof fn lemma_devices_hash_the_copies(
    results: Seq<ResultView>,
    destinations: Seq<Seq<PartView>>,
    with_source: bool,
    k: int,
    s: int,
)
    requires
        0 <= k < destinations.len(),
        0 <= s < verifiable(results).len(),
    ensures
        ({
            let result = results[verifiable(results)[s] as int];
            let device = if with_source {
                k + 1
            } else {
                k
            };
            let file = device_files(results, destinations, with_source, device)[s];
            &&& file.0 == s
            &&& file.1 == places(destinations, result.relative_path)[k]
            &&& is_descent(result.relative_path) ==> file.1 == destinations[k]
                + result.relative_path && stripped(file.1, destinations[k]) == Some(
                result.relative_path,
            )
            &&& with_source ==> device_files(results, destinations, with_source, 0)[s].1
                == result.source_path
            &&& device_files(results, destinations, with_source, device).len() == verifiable(
                results,
            ).len()
        }),
{
    let result = results[verifiable(results)[s] as int];
    lemma_joined(destinations[k], result.relative_path);
    if is_descent(result.relative_path) {
        lemma_strip_undoes_join(destinations[k], result.relative_path);
        if result.relative_path.len() > 0 {
            assert(result.relative_path[0] is Normal);
        } else {
            assert(destinations[k] + result.relative_path =~= destinations[k]);
        }
    }
}

} // verus!
