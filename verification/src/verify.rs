//! Reading files back: hashing them, device by device, and comparing sizes.
use vstd::prelude::*;

use crate::engine::{places, result_views, CopyResult, ResultView};
use crate::failure::{aborted_view, ErrorKind, IoError, IoErrorView};
use crate::hashing::{flattened, hash_text, StreamHash};
use crate::path::{joined, path_views, FilePath, PartView};
use crate::stream::chunk_read;
use crate::verdict::{hash_view, HashView};

verus! {

/// What the copies are held against.
#[derive(Debug, Clone, Copy, PartialEq, Eq, Structural)]
pub enum VerifyMode {
    /// The source, read again.
    Source,
    /// The hash of what was copied.
    Target,
    /// The sizes only.
    Transfer,
}

/// What is next in the hashing of a file.
#[derive(Debug, Clone, Copy, PartialEq, Eq, Structural)]
pub enum HashStage {
    /// A look at whether a stop was requested.
    Polling,
    /// Reading into a buffer.
    Reading,
    Over,
}

/// The hashing of one file.
pub struct FileHash {
    hash: StreamHash,
    stage: HashStage,
}

/// The model of a `FileHash`: the bytes that were read, and what is next.
pub struct FileHashView {
    pub bytes: Seq<u8>,
    pub stage: HashStage,
}

impl View for FileHash {
    type V = FileHashView;

    closed spec fn view(&self) -> FileHashView {
        FileHashView { bytes: self.hash@, stage: self.stage }
    }
}

impl FileHashView {
    /// The hashing before anything was read.
    pub open spec fn start() -> FileHashView {
        FileHashView { bytes: Seq::empty(), stage: HashStage::Polling }
    }

    /// The hashing after a look at whether a stop was requested, and its end if that ends it.
    pub open spec fn polled(self, aborted: bool) -> (FileHashView, Option<HashView>) {
        if aborted {
            (FileHashView { stage: HashStage::Over, ..self }, Some(Err(aborted_view())))
        } else {
            (FileHashView { stage: HashStage::Reading, ..self }, None)
        }
    }

    /// The hashing after a read, and its end if that ends it.
    pub open spec fn read(self, chunk: Result<Seq<u8>, IoErrorView>) -> (
        FileHashView,
        Option<HashView>,
    ) {
        let over = FileHashView { stage: HashStage::Over, ..self };
        match chunk {
            Ok(bytes) => if bytes.len() == 0 {
                (over, Some(Ok(hash_text(self.bytes))))
            } else {
                (FileHashView { bytes: self.bytes + bytes, stage: HashStage::Polling }, None)
            },
            Err(error) => (over, Some(Err(error))),
        }
    }
}

/// The model of an end of hashing that may not have been reached.
pub open spec fn end_view(end: Option<Result<String, IoError>>) -> Option<HashView> {
    match end {
        Some(answer) => Some(hash_view(answer)),
        None => None,
    }
}

impl FileHash {
    pub fn new() -> (hash: FileHash)
        ensures
            hash@ == FileHashView::start(),
            hash@.bytes.len() == 0,
            hash@.stage == HashStage::Polling,
    {
        FileHash { hash: StreamHash::new(), stage: HashStage::Polling }
    }

    /// Looks at whether a stop was requested, before each read. With a result the hashing is
    /// over.
    pub fn poll(&mut self, aborted: bool) -> (end: Option<Result<String, IoError>>)
        requires
            old(self)@.stage == HashStage::Polling,
        ensures
            final(self)@ == old(self)@.polled(aborted).0,
            end_view(end) == old(self)@.polled(aborted).1,
            final(self)@.bytes == old(self)@.bytes,
            aborted ==> end is Some && end->0 is Err && end->0->Err_0.kind
                == ErrorKind::Interrupted && end->0->Err_0.message@ == "aborted"@
                && final(self)@.stage == HashStage::Over,
            !aborted ==> end is None && final(self)@.stage == HashStage::Reading,
    {
        if aborted {
            self.stage = HashStage::Over;
            Some(Err(IoError::aborted()))
        } else {
            self.stage = HashStage::Reading;
            None
        }
    }

    /// Takes the outcome of a read into `buffer`. With a result the hashing is over.
    pub fn read(&mut self, outcome: Result<usize, IoError>, buffer: &[u8]) -> (end: Option<
        Result<String, IoError>,
    >)
        requires
            old(self)@.stage == HashStage::Reading,
            outcome matches Ok(n) ==> n <= buffer@.len(),
        ensures
            final(self)@ == old(self)@.read(chunk_read(outcome, buffer@)).0,
            end_view(end) == old(self)@.read(chunk_read(outcome, buffer@)).1,
            outcome matches Ok(n) ==> final(self)@.bytes == old(self)@.bytes + buffer@.take(
                n as int,
            ),
            outcome matches Ok(n) ==> if n == 0 {
                end is Some && end->0 is Ok && end->0->Ok_0@ == hash_text(old(self)@.bytes)
                    && final(self)@.stage == HashStage::Over
            } else {
                end is None && final(self)@.stage == HashStage::Polling
            },
            outcome matches Err(error) ==> end == Some(Err::<String, IoError>(error))
                && final(self)@.stage == HashStage::Over,
    {
        match outcome {
            Ok(n) => {
                if n == 0 {
                    assert(self@.bytes + buffer@.take(0) =~= self@.bytes);
                    self.stage = HashStage::Over;
                    Some(Ok(self.hash.text()))
                } else {
                    let chunk = &buffer[0..n];
                    self.hash.update(chunk);
                    assert(chunk@ =~= buffer@.take(n as int));
                    self.stage = HashStage::Polling;
                    None
                }
            },
            Err(error) => {
                self.stage = HashStage::Over;
                Some(Err(error))
            },
        }
    }
}

/// The end of hashing that a sequence of reads leads to, with no stop requested.
pub open spec fn hash_run(hash: FileHashView, reads: Seq<Result<Seq<u8>, IoErrorView>>) -> Option<
    HashView,
>
    decreases reads.len(),
{
    if reads.len() == 0 {
        None
    } else {
        let step = hash.polled(false).0.read(reads[0]);
        match step.1 {
            Some(end) => Some(end),
            None => hash_run(step.0, reads.skip(1)),
        }
    }
}

/// The reads that hand out `chunks` and then nothing.
pub open spec fn reads_of(chunks: Seq<Seq<u8>>) -> Seq<Result<Seq<u8>, IoErrorView>> {
    chunks.map_values(|chunk: Seq<u8>| Ok::<Seq<u8>, IoErrorView>(chunk)).push(Ok(Seq::empty()))
}

proof fn lemma_hash_run(before: Seq<u8>, chunks: Seq<Seq<u8>>, k: int)
    requires
        0 <= k <= chunks.len(),
        forall|i: int| 0 <= i < chunks.len() ==> (#[trigger] chunks[i]).len() > 0,
        before == flattened(chunks.take(k)),
    ensures
        hash_run(
            FileHashView { bytes: before, stage: HashStage::Polling },
            reads_of(chunks).skip(k),
        ) == Some(Ok::<Seq<char>, IoErrorView>(hash_text(flattened(chunks)))),
    decreases chunks.len() - k,
{
    let reads = reads_of(chunks).skip(k);
    if k == chunks.len() {
        assert(chunks.take(k) =~= chunks);
        assert(reads[0] == Ok::<Seq<u8>, IoErrorView>(Seq::empty()));
    } else {
        assert(reads[0] == Ok::<Seq<u8>, IoErrorView>(chunks[k]));
        assert(chunks.take(k + 1).drop_last() =~= chunks.take(k));
        assert(chunks.take(k + 1).last() == chunks[k]);
        assert(reads.skip(1) =~= reads_of(chunks).skip(k + 1));
        lemma_hash_run(before + chunks[k], chunks, k + 1);
    }
}

/// Hashing a file to its end gives the hash of its contents, however the reads divide them:
/// it is the hash that copying the same contents records.
pub proof fn lemma_hash_is_of_contents(chunks: Seq<Seq<u8>>)
    requires
        forall|i: int| 0 <= i < chunks.len() ==> (#[trigger] chunks[i]).len() > 0,
    ensures
        hash_run(FileHashView::start(), reads_of(chunks)) == Some(
            Ok::<Seq<char>, IoErrorView>(hash_text(flattened(chunks))),
        ),
{
    assert(chunks.take(0) =~= Seq::empty());
    assert(reads_of(chunks).skip(0) =~= reads_of(chunks));
    lemma_hash_run(Seq::empty(), chunks, 0);
}

/// Where a worker stands.
#[derive(Debug, Clone, Copy, PartialEq, Eq, Structural)]
pub enum WorkerStage {
    /// Before its next file.
    Waiting,
    Hashing,
    /// Handing over the answer for a file.
    Sending,
    /// Handing over that it was stopped.
    SendingLast,
    Over,
}

/// What happened to a worker.
#[derive(Debug)]
pub enum WorkerEvent {
    /// It looked at whether a stop was requested.
    Polled(bool),
    Hashed(Result<String, IoError>),
    /// It handed over an answer, unless nobody was there to take it.
    Sent(bool),
}

/// What a worker is to do.
#[derive(Debug)]
pub enum WorkerAction {
    /// Look at whether a stop was requested.
    Poll,
    Hash(FilePath),
    /// Hand over the answer for a file: which file, which device, and the answer.
    Send(usize, usize, Result<String, IoError>),
    Stop,
}

/// The model of a `WorkerEvent`.
pub enum WorkerEventView {
    Polled(bool),
    Hashed(HashView),
    Sent(bool),
}

/// The model of a `WorkerAction`.
pub enum WorkerActionView {
    Poll,
    Hash(Seq<PartView>),
    Send(nat, nat, HashView),
    Stop,
}

impl View for WorkerEvent {
    type V = WorkerEventView;

    open spec fn view(&self) -> WorkerEventView {
        match self {
            WorkerEvent::Polled(aborted) => WorkerEventView::Polled(*aborted),
            WorkerEvent::Hashed(answer) => WorkerEventView::Hashed(hash_view(*answer)),
            WorkerEvent::Sent(taken) => WorkerEventView::Sent(*taken),
        }
    }
}

impl View for WorkerAction {
    type V = WorkerActionView;

    open spec fn view(&self) -> WorkerActionView {
        match self {
            WorkerAction::Poll => WorkerActionView::Poll,
            WorkerAction::Hash(path) => WorkerActionView::Hash(path@),
            WorkerAction::Send(seq, device, answer) => WorkerActionView::Send(
                *seq as nat,
                *device as nat,
                hash_view(*answer),
            ),
            WorkerAction::Stop => WorkerActionView::Stop,
        }
    }
}

/// One device's part in a verification: its files, numbered, and how far it has come.
#[derive(Debug)]
pub struct Worker {
    device: usize,
    files: Vec<(usize, FilePath)>,
    done: usize,
    stage: WorkerStage,
}

/// The model of a `Worker`.
pub struct WorkerView {
    pub device: nat,
    pub files: Seq<(nat, Seq<PartView>)>,
    pub done: nat,
    pub stage: WorkerStage,
}

/// The models of a list of numbered files.
pub open spec fn numbered_views(files: Seq<(usize, FilePath)>) -> Seq<(nat, Seq<PartView>)> {
    files.map_values(|file: (usize, FilePath)| (file.0 as nat, file.1@))
}

impl View for Worker {
    type V = WorkerView;

    closed spec fn view(&self) -> WorkerView {
        WorkerView {
            device: self.device as nat,
            files: numbered_views(self.files@),
            done: self.done as nat,
            stage: self.stage,
        }
    }
}

impl WorkerView {
    /// A worker at a file has a file to be at.
    pub open spec fn wf(self) -> bool {
        &&& self.done <= self.files.len()
        &&& self.stage == WorkerStage::Hashing || self.stage == WorkerStage::Sending || self.stage
            == WorkerStage::SendingLast ==> self.done < self.files.len()
    }

    /// Whether this can happen to the worker where it stands.
    pub open spec fn expects(self, event: WorkerEventView) -> bool {
        match event {
            WorkerEventView::Polled(_) => self.stage == WorkerStage::Waiting,
            WorkerEventView::Hashed(_) => self.stage == WorkerStage::Hashing,
            WorkerEventView::Sent(_) => self.stage == WorkerStage::Sending || self.stage
                == WorkerStage::SendingLast,
        }
    }

    /// The worker after something happened, and what it is to do.
    pub open spec fn stepped(self, event: WorkerEventView) -> (WorkerView, WorkerActionView) {
        let over = (WorkerView { stage: WorkerStage::Over, ..self }, WorkerActionView::Stop);
        match event {
            WorkerEventView::Polled(aborted) => if self.done == self.files.len() {
                over
            } else if aborted {
                (
                    WorkerView { stage: WorkerStage::SendingLast, ..self },
                    WorkerActionView::Send(
                        self.files[self.done as int].0,
                        self.device,
                        Err(aborted_view()),
                    ),
                )
            } else {
                (
                    WorkerView { stage: WorkerStage::Hashing, ..self },
                    WorkerActionView::Hash(self.files[self.done as int].1),
                )
            },
            WorkerEventView::Hashed(answer) => (
                WorkerView { stage: WorkerStage::Sending, ..self },
                WorkerActionView::Send(self.files[self.done as int].0, self.device, answer),
            ),
            WorkerEventView::Sent(taken) => if taken && self.stage == WorkerStage::Sending {
                (
                    WorkerView { done: self.done + 1, stage: WorkerStage::Waiting, ..self },
                    WorkerActionView::Poll,
                )
            } else {
                over
            },
        }
    }
}

impl Worker {
    /// A worker for the device with this number, before its first file.
    pub fn new(device: usize, files: Vec<(usize, FilePath)>) -> (worker: Worker)
        ensures
            worker@ == (WorkerView {
                device: device as nat,
                files: numbered_views(files@),
                done: 0,
                stage: WorkerStage::Waiting,
            }),
            worker@.wf(),
    {
        Worker { device, files, done: 0, stage: WorkerStage::Waiting }
    }
}

/// Moves one device's part in a verification along: it goes through its files in order and at
/// its own pace, whatever the other devices do.
pub fn verify_worker(worker: &mut Worker, event: WorkerEvent) -> (action: WorkerAction)
    requires
        old(worker)@.wf(),
        old(worker)@.expects(event@),
    ensures
        final(worker)@ == old(worker)@.stepped(event@).0,
        action@ == old(worker)@.stepped(event@).1,
        final(worker)@.wf(),
        final(worker)@.files == old(worker)@.files,
        final(worker)@.device == old(worker)@.device,
        event matches WorkerEvent::Polled(aborted) ==> final(worker)@.done == old(worker)@.done
            && if old(worker)@.done == old(worker)@.files.len() {
            action is Stop
        } else if aborted {
            action matches WorkerAction::Send(seq, device, Err(error)) && seq
                == old(worker)@.files[old(worker)@.done as int].0 && device
                == old(worker)@.device && error.kind == ErrorKind::Interrupted && error.message@
                == "aborted"@
        } else {
            action matches WorkerAction::Hash(path) && path@
                == old(worker)@.files[old(worker)@.done as int].1
        },
        event matches WorkerEvent::Hashed(answer) ==> final(worker)@.done == old(worker)@.done && (
        action matches WorkerAction::Send(seq, device, sent) && seq
            == old(worker)@.files[old(worker)@.done as int].0 && device == old(worker)@.device
            && sent == answer),
        event matches WorkerEvent::Sent(taken) ==> if taken && old(worker)@.stage
            == WorkerStage::Sending {
            action is Poll && final(worker)@.done == old(worker)@.done + 1
        } else {
            action is Stop && final(worker)@.done == old(worker)@.done
        },
{
    let count: usize = worker.files.len();
    proof {
        if worker.done < count {
            assert(worker@.files[worker.done as int] == (
                worker.files@[worker.done as int].0 as nat,
                worker.files@[worker.done as int].1@,
            ));
        }
    }
    match event {
        WorkerEvent::Polled(aborted) => {
            if worker.done == count {
                worker.stage = WorkerStage::Over;
                WorkerAction::Stop
            } else if aborted {
                worker.stage = WorkerStage::SendingLast;
                WorkerAction::Send(
                    worker.files[worker.done].0,
                    worker.device,
                    Err(IoError::aborted()),
                )
            } else {
                worker.stage = WorkerStage::Hashing;
                WorkerAction::Hash(worker.files[worker.done].1.clone())
            }
        },
        WorkerEvent::Hashed(answer) => {
            worker.stage = WorkerStage::Sending;
            WorkerAction::Send(worker.files[worker.done].0, worker.device, answer)
        },
        WorkerEvent::Sent(taken) => {
            if taken && worker.stage == WorkerStage::Sending {
                worker.done = worker.done + 1;
                worker.stage = WorkerStage::Waiting;
                WorkerAction::Poll
            } else {
                worker.stage = WorkerStage::Over;
                WorkerAction::Stop
            }
        },
    }
}

/// A worker that is not stopped hashes the file whose turn it is, hands over the answer under
/// the file's number, and goes on to the next one.
pub proof fn lemma_worker_keeps_order(worker: WorkerView, answer: HashView)
    requires
        worker.wf(),
        worker.stage == WorkerStage::Waiting,
        worker.done < worker.files.len(),
    ensures
        ({
            let file = worker.files[worker.done as int];
            let hashing = worker.stepped(WorkerEventView::Polled(false));
            let sending = hashing.0.stepped(WorkerEventView::Hashed(answer));
            let next = sending.0.stepped(WorkerEventView::Sent(true));
            &&& hashing.1 == WorkerActionView::Hash(file.1)
            &&& sending.1 == WorkerActionView::Send(file.0, worker.device, answer)
            &&& next.0 == WorkerView { done: worker.done + 1, ..worker }
        }),
{
}

/// A worker after a sequence of events.
pub open spec fn worked(worker: WorkerView, events: Seq<WorkerEventView>) -> WorkerView
    decreases events.len(),
{
    if events.len() == 0 {
        worker
    } else {
        worked(worker, events.drop_last()).stepped(events.last()).0
    }
}

/// Whether these events can happen to a worker, one after the other.
pub open spec fn workable(worker: WorkerView, events: Seq<WorkerEventView>) -> bool
    decreases events.len(),
{
    events.len() > 0 ==> workable(worker, events.drop_last()) && worked(
        worker,
        events.drop_last(),
    ).expects(events.last())
}

/// The numbers of the files for which a worker handed over an answer, in order.
pub open spec fn answered(worker: WorkerView, events: Seq<WorkerEventView>) -> Seq<nat>
    decreases events.len(),
{
    if events.len() == 0 {
        Seq::empty()
    } else {
        let before = answered(worker, events.drop_last());
        match worked(worker, events.drop_last()).stepped(events.last()).1 {
            WorkerActionView::Send(seq, _, _) => before.push(seq),
            _ => before,
        }
    }
}

/// Whatever happens to a worker, it hands over answers for its files in their order, one for
/// each file at most, and leaves none out before the last.
pub proof fn lemma_worker_answers_in_order(
    device: nat,
    files: Seq<(nat, Seq<PartView>)>,
    events: Seq<WorkerEventView>,
)
    requires
        workable(WorkerView { device, files, done: 0, stage: WorkerStage::Waiting }, events),
    ensures
        ({
            let start = WorkerView { device, files, done: 0, stage: WorkerStage::Waiting };
            let numbers = answered(start, events);
            &&& worked(start, events).wf()
            &&& numbers.len() <= files.len()
            &&& forall|k: int| 0 <= k < numbers.len() ==> #[trigger] numbers[k] == files[k].0
        }),
{
    lemma_worker_progress(device, files, events);
}

proof fn lemma_worker_progress(
    device: nat,
    files: Seq<(nat, Seq<PartView>)>,
    events: Seq<WorkerEventView>,
)
    requires
        workable(WorkerView { device, files, done: 0, stage: WorkerStage::Waiting }, events),
    ensures
        ({
            let start = WorkerView { device, files, done: 0, stage: WorkerStage::Waiting };
            let now = worked(start, events);
            let numbers = answered(start, events);
            &&& now.wf()
            &&& now.files == files
            &&& numbers.len() == now.done || (numbers.len() == now.done + 1 && now.done
                < files.len())
            &&& now.stage == WorkerStage::Waiting || now.stage == WorkerStage::Hashing
                ==> numbers.len() == now.done
            &&& now.stage == WorkerStage::Sending || now.stage == WorkerStage::SendingLast
                ==> numbers.len() == now.done + 1
            &&& forall|k: int| 0 <= k < numbers.len() ==> #[trigger] numbers[k] == files[k].0
        }),
    decreases events.len(),
{
    if events.len() > 0 {
        lemma_worker_progress(device, files, events.drop_last());
    }
}

/// What a comparison of sizes looks at: for each file that was copied or was there already,
/// its places in all destinations, with the size that is right.
pub open spec fn transfer_plan(
    results: Seq<ResultView>,
    destinations: Seq<Seq<PartView>>,
) -> Seq<(Seq<PartView>, u64)>
    decreases results.len(),
{
    if results.len() == 0 {
        Seq::empty()
    } else {
        let before = transfer_plan(results.drop_last(), destinations);
        let last = results.last();
        if last.success {
            before + places(destinations, last.relative_path).map_values(
                |path: Seq<PartView>| (path, last.size),
            )
        } else {
            before
        }
    }
}

/// The models of a list of paths with sizes.
pub open spec fn sized_views(checks: Seq<(FilePath, u64)>) -> Seq<(Seq<PartView>, u64)> {
    checks.map_values(|check: (FilePath, u64)| (check.0@, check.1))
}

/// What a comparison of sizes is to look at, in order.
pub fn transfer_checks(results: &Vec<CopyResult>, destinations: &Vec<FilePath>) -> (checks: Vec<
    (FilePath, u64),
>)
    ensures
        sized_views(checks@) == transfer_plan(result_views(results@), path_views(destinations@)),
{
    let ghost views = result_views(results@);
    let ghost dests = path_views(destinations@);
    let mut checks: Vec<(FilePath, u64)> = Vec::new();
    let mut i: usize = 0;
    assert(views.take(0) =~= Seq::empty());
    assert(sized_views(checks@) =~= Seq::empty());
    while i < results.len()
        invariant
            i <= results@.len(),
            views == result_views(results@),
            dests == path_views(destinations@),
            sized_views(checks@) == transfer_plan(views.take(i as int), dests),
        decreases results@.len() - i,
    {
        let ghost so_far = sized_views(checks@);
        let ghost last = views[i as int];
        let ghost more = places(dests, last.relative_path).map_values(
            |path: Seq<PartView>| (path, last.size),
        );
        proof {
            assert(views.take(i + 1).drop_last() =~= views.take(i as int));
            assert(views.take(i + 1).last() == last);
        }
        if results[i].success {
            let mut k: usize = 0;
            assert(so_far + more.take(0) =~= so_far);
            while k < destinations.len()
                invariant
                    i < results@.len(),
                    k <= destinations@.len(),
                    dests == path_views(destinations@),
                    last == results@[i as int]@,
                    more == places(dests, last.relative_path).map_values(
                        |path: Seq<PartView>| (path, last.size),
                    ),
                    sized_views(checks@) == so_far + more.take(k as int),
                decreases destinations@.len() - k,
            {
                let ghost now = sized_views(checks@);
                let path = destinations[k].join(&results[i].relative_path);
                checks.push((path, results[i].size));
                assert(sized_views(checks@) =~= now.push(more[k as int]));
                k += 1;
                assert(so_far + more.take(k as int) =~= (so_far + more.take(k - 1)).push(
                    more[k - 1],
                ));
            }
            assert(more.take(k as int) =~= more);
        }
        i += 1;
    }
    assert(views.take(i as int) =~= views);
    checks
}

/// What is wrong with the size of a file.
#[derive(Debug)]
pub enum TransferFailure {
    /// The size that was found, and the right one.
    WrongSize(FilePath, u64, u64),
    Unreadable(FilePath, IoError),
}

/// The model of a `TransferFailure`.
pub enum TransferFailureView {
    WrongSize(Seq<PartView>, u64, u64),
    Unreadable(Seq<PartView>, IoErrorView),
}

impl View for TransferFailure {
    type V = TransferFailureView;

    open spec fn view(&self) -> TransferFailureView {
        match self {
            TransferFailure::WrongSize(path, found, expected) => TransferFailureView::WrongSize(
                path@,
                *found,
                *expected,
            ),
            TransferFailure::Unreadable(path, error) => TransferFailureView::Unreadable(
                path@,
                error@,
            ),
        }
    }
}

/// The model of an attempt to find out a size.
pub open spec fn size_view(found: Result<u64, IoError>) -> Result<u64, IoErrorView> {
    match found {
        Ok(size) => Ok(size),
        Err(error) => Err(error@),
    }
}

/// What is wrong with a file whose size is to be `check.1`.
pub open spec fn size_judged(
    check: (Seq<PartView>, u64),
    found: Result<u64, IoErrorView>,
) -> Option<TransferFailureView> {
    match found {
        Ok(size) => if size == check.1 {
            None
        } else {
            Some(TransferFailureView::WrongSize(check.0, size, check.1))
        },
        Err(error) => Some(TransferFailureView::Unreadable(check.0, error)),
    }
}

/// What is wrong with the first `n` files that were looked at.
pub open spec fn sizes_judged(
    plan: Seq<(Seq<PartView>, u64)>,
    found: Seq<Result<u64, IoErrorView>>,
    n: nat,
) -> Seq<TransferFailureView>
    decreases n,
{
    if n == 0 {
        Seq::empty()
    } else {
        let before = sizes_judged(plan, found, (n - 1) as nat);
        match size_judged(plan[n - 1], found[n - 1]) {
            Some(failure) => before.push(failure),
            None => before,
        }
    }
}

/// The models of a list of failures.
pub open spec fn transfer_failure_views(failures: Seq<TransferFailure>) -> Seq<
    TransferFailureView,
> {
    failures.map_values(|failure: TransferFailure| failure@)
}

/// What a comparison of sizes came to.
#[derive(Debug)]
pub struct TransferReport {
    pub all_ok: bool,
    pub checked: usize,
    pub failures: Vec<TransferFailure>,
}

/// The models of a list of attempts to find out a size.
pub open spec fn size_views(found: Seq<Result<u64, IoError>>) -> Seq<Result<u64, IoErrorView>> {
    found.map_values(|size: Result<u64, IoError>| size_view(size))
}

/// Compares the sizes that were found with those that are right.
pub fn verify_transfer(checks: &Vec<(FilePath, u64)>, found: &Vec<Result<u64, IoError>>) -> (
    report: TransferReport)
    requires
        checks@.len() == found@.len(),
    ensures
        report.checked == checks@.len(),
        report.all_ok <==> report.failures@.len() == 0,
        report.all_ok <==> forall|i: int|
            0 <= i < checks@.len() ==> (#[trigger] found@[i]) is Ok && found@[i]->Ok_0
                == checks@[i].1,
        transfer_failure_views(report.failures@) == sizes_judged(
            sized_views(checks@),
            size_views(found@),
            checks@.len(),
        ),
        report.all_ok == (forall|i: int|
            0 <= i < checks@.len() ==> #[trigger] size_views(found@)[i] == Ok::<u64, IoErrorView>(
                checks@[i].1,
            )),
{
    let ghost plan = sized_views(checks@);
    let ghost sizes = size_views(found@);
    let mut all_ok = true;
    let mut failures: Vec<TransferFailure> = Vec::new();
    let mut i: usize = 0;
    assert(transfer_failure_views(failures@) =~= Seq::empty());
    while i < checks.len()
        invariant
            i <= checks@.len(),
            checks@.len() == found@.len(),
            plan == sized_views(checks@),
            sizes == size_views(found@),
            transfer_failure_views(failures@) == sizes_judged(plan, sizes, i as nat),
            all_ok == (forall|k: int|
                0 <= k < i ==> #[trigger] sizes[k] == Ok::<u64, IoErrorView>(checks@[k].1)),
            all_ok == (forall|k: int|
                0 <= k < i ==> (#[trigger] found@[k]) is Ok && found@[k]->Ok_0 == checks@[k].1),
            all_ok == (failures@.len() == 0),
        decreases checks@.len() - i,
    {
        let ghost before = transfer_failure_views(failures@);
        let check = &checks[i];
        assert(sizes[i as int] == size_view(found@[i as int]));
        match &found[i] {
            Ok(size) => {
                if *size != check.1 {
                    failures.push(TransferFailure::WrongSize(check.0.clone(), *size, check.1));
                    all_ok = false;
                }
            },
            Err(error) => {
                failures.push(TransferFailure::Unreadable(check.0.clone(), error.clone()));
                all_ok = false;
            },
        }
        proof {
            match size_judged(plan[i as int], sizes[i as int]) {
                Some(failure) => {
                    assert(transfer_failure_views(failures@) =~= before.push(failure));
                },
                None => {},
            }
        }
        i += 1;
    }
    TransferReport { all_ok, checked: checks.len(), failures }
}

/// A comparison of sizes looks at every place of every file that was copied or was there
/// already, and holds it against the recorded size.
pub proof fn lemma_transfer_is_complete(
    results: Seq<ResultView>,
    destinations: Seq<Seq<PartView>>,
    i: int,
    k: int,
)
    requires
        0 <= i < results.len(),
        results[i].success,
        0 <= k < destinations.len(),
    ensures
        transfer_plan(results, destinations).contains(
            (joined(destinations[k], results[i].relative_path), results[i].size),
        ),
    decreases results.len(),
{
    let wanted = (joined(destinations[k], results[i].relative_path), results[i].size);
    let plan = transfer_plan(results, destinations);
    let before = transfer_plan(results.drop_last(), destinations);
    let last = results.last();
    if i == results.len() - 1 {
        let more = places(destinations, last.relative_path).map_values(
            |path: Seq<PartView>| (path, last.size),
        );
        assert(plan == before + more);
        assert(more[k] == wanted);
        assert(plan[before.len() + k] == wanted);
    } else {
        lemma_transfer_is_complete(results.drop_last(), destinations, i, k);
        let at = choose|at: int| 0 <= at < before.len() && before[at] == wanted;
        assert(plan[at] == wanted);
    }
}

/// A worker that is asked to stop before a file hands over for it that it was interrupted, and
/// ends, whether that is taken or not; it hashes no further file.
pub proof fn lemma_stopped_worker_says_so(worker: WorkerView, taken: bool)
    requires
        worker.wf(),
        worker.stage == WorkerStage::Waiting,
        worker.done < worker.files.len(),
    ensures
        ({
            let last = worker.stepped(WorkerEventView::Polled(true));
            let end = last.0.stepped(WorkerEventView::Sent(taken));
            &&& last.1 matches WorkerActionView::Send(seq, device, Err(error))
            &&& seq == worker.files[worker.done as int].0
            &&& device == worker.device
            &&& error.kind == ErrorKind::Interrupted
            &&& end.1 == WorkerActionView::Stop
            &&& end.0.stage == WorkerStage::Over
        }),
{
}

/// A comparison of sizes looks at nothing but places of files that were copied or were there
/// already, each with the recorded size of its file, and once for each file and destination.
pub proof fn lemma_transfer_checks_only_copies(
    results: Seq<ResultView>,
    destinations: Seq<Seq<PartView>>,
    at: int,
)
    requires
        0 <= at < transfer_plan(results, destinations).len(),
    ensures
        exists|i: int, k: int|
            0 <= i < results.len() && 0 <= k < destinations.len() && (
            #[trigger] results[i]).success && transfer_plan(results, destinations)[at] == (
                joined(#[trigger] destinations[k], results[i].relative_path),
                results[i].size,
            ),
    decreases results.len(),
{
    let plan = transfer_plan(results, destinations);
    let fewer = results.drop_last();
    let before = transfer_plan(fewer, destinations);
    let last = results.last();
    if at < before.len() {
        lemma_transfer_checks_only_copies(fewer, destinations, at);
        let (i, k) = choose|i: int, k: int|
            0 <= i < fewer.len() && 0 <= k < destinations.len() && (
            #[trigger] fewer[i]).success && before[at] == (
                joined(#[trigger] destinations[k], fewer[i].relative_path),
                fewer[i].size,
            );
        assert(plan[at] == before[at]);
        assert(results[i] == fewer[i]);
    } else {
        let k = at - before.len();
        assert(results[results.len() - 1] == last);
        assert(plan[at] == (joined(destinations[k], last.relative_path), last.size));
    }
}

/// A comparison of sizes makes one check for each file that is not failed and each destination.
pub proof fn lemma_transfer_check_count(
    results: Seq<ResultView>,
    destinations: Seq<Seq<PartView>>,
)
    ensures
        transfer_plan(results, destinations).len() == results.filter(
            |result: ResultView| result.success,
        ).len() * destinations.len(),
    decreases results.len(),
{
    reveal(Seq::filter);
    let good = |result: ResultView| result.success;
    if results.len() == 0 {
        assert(results.filter(good).len() == 0);
        assert(0 * destinations.len() == 0);
    } else {
        let fewer = results.drop_last();
        lemma_transfer_check_count(fewer, destinations);
        let n = fewer.filter(good).len();
        assert((n + 1) * destinations.len() == n * destinations.len() + destinations.len())
            by (nonlinear_arith);
    }
}

/// A failure of a comparison of sizes is of a place that was looked at: what was found there has
/// another size than the right one, or could not be found out; and every such place is reported.
pub proof fn lemma_transfer_failures_are_exact(
    plan: Seq<(Seq<PartView>, u64)>,
    found: Seq<Result<u64, IoErrorView>>,
    n: nat,
    path: Seq<PartView>,
    size: u64,
    right: u64,
    error: IoErrorView,
)
    requires
        n <= plan.len(),
        n <= found.len(),
    ensures
        sizes_judged(plan, found, n).contains(TransferFailureView::WrongSize(path, size, right))
            <==> exists|i: int|
            0 <= i < n && #[trigger] plan[i] == (path, right) && found[i] == Ok::<u64, IoErrorView>(
                size,
            ) && size != right,
        sizes_judged(plan, found, n).contains(TransferFailureView::Unreadable(path, error))
            <==> exists|i: int|
            0 <= i < n && (#[trigger] plan[i]).0 == path && found[i] == Err::<u64, IoErrorView>(
                error,
            ),
    decreases n,
{
    if n > 0 {
        let less = (n - 1) as nat;
        let last = n - 1;
        lemma_transfer_failures_are_exact(plan, found, less, path, size, right, error);
        let before = sizes_judged(plan, found, less);
        let all = sizes_judged(plan, found, n);
        let wrong = TransferFailureView::WrongSize(path, size, right);
        let unread = TransferFailureView::Unreadable(path, error);
        assert forall|failure: TransferFailureView| #[trigger] all.contains(failure) <==> (
        before.contains(failure) || size_judged(plan[last], found[last]) == Some(failure)) by {
            if all.contains(failure) {
                let k = choose|k: int| 0 <= k < all.len() && all[k] == failure;
                if k < before.len() {
                    assert(before[k] == failure);
                }
            }
            if before.contains(failure) {
                let k = choose|k: int| 0 <= k < before.len() && before[k] == failure;
                assert(all[k] == failure);
            }
            if size_judged(plan[last], found[last]) == Some(failure) {
                assert(all[before.len() as int] == failure);
            }
        }
        assert(all.contains(wrong) <==> before.contains(wrong) || (plan[last] == (path, right)
            && found[last] == Ok::<u64, IoErrorView>(size) && size != right));
        assert(all.contains(unread) <==> before.contains(unread) || (plan[last].0 == path
            && found[last] == Err::<u64, IoErrorView>(error)));
    }
}

} // verus!
