//! Streaming one file to its destinations.
use vstd::prelude::*;

use crate::directio::{
    aligned_but_last, fed, file_contents, lemma_aligned_chunks_accepted, lemma_file_holds_chunks,
    BUFFER_SIZE, PAGE,
};
use crate::failure::{aborted_view, ErrorKind, IoError, IoErrorView};
use crate::hashing::{flattened, hash_text, StreamHash};

verus! {

/// What is to be done after an attempt to read.
#[derive(Debug)]
pub enum ReadStep {
    /// Read again, behind this many bytes.
    Again(usize),
    /// The buffer is full or the source at its end, with this many bytes in the buffer.
    Done(usize),
    Failed(IoError),
}

/// The model of a `ReadStep`.
pub enum ReadStepView {
    Again(nat),
    Done(nat),
    Failed(IoErrorView),
}

impl View for ReadStep {
    type V = ReadStepView;

    open spec fn view(&self) -> ReadStepView {
        match self {
            ReadStep::Again(n) => ReadStepView::Again(*n as nat),
            ReadStep::Done(n) => ReadStepView::Done(*n as nat),
            ReadStep::Failed(error) => ReadStepView::Failed(error@),
        }
    }
}

/// How the filling of a buffer of `len` bytes goes on when `filled` of them are there and a
/// read into the rest had this outcome.
pub open spec fn filled_further(
    filled: nat,
    len: nat,
    outcome: Result<nat, IoErrorView>,
) -> ReadStepView {
    match outcome {
        Ok(n) => if n == 0 || filled + n >= len {
            ReadStepView::Done(filled + n)
        } else {
            ReadStepView::Again(filled + n)
        },
        Err(error) => if error.kind == ErrorKind::Interrupted {
            ReadStepView::Again(filled)
        } else {
            ReadStepView::Failed(error)
        },
    }
}

/// The model of the outcome of a read.
pub open spec fn read_outcome(outcome: Result<usize, IoError>) -> Result<nat, IoErrorView> {
    match outcome {
        Ok(n) => Ok(n as nat),
        Err(error) => Err(error@),
    }
}

/// Goes on filling a buffer of `len` bytes after a read behind the first `filled` of them.
/// Short and interrupted reads are repeated, so that only the end of the source leaves a
/// buffer part full.
pub fn read_full(filled: usize, len: usize, outcome: Result<usize, IoError>) -> (step: ReadStep)
    requires
        filled < len,
        outcome matches Ok(n) ==> n <= len - filled,
    ensures
        step@ == filled_further(filled as nat, len as nat, read_outcome(outcome)),
        outcome matches Ok(n) ==> if n == 0 || filled + n == len {
            step == ReadStep::Done((filled + n) as usize)
        } else {
            step == ReadStep::Again((filled + n) as usize)
        },
        outcome matches Err(error) ==> if error.kind == ErrorKind::Interrupted {
            step == ReadStep::Again(filled)
        } else {
            step == ReadStep::Failed(error)
        },
{
    match outcome {
        Ok(n) => {
            if n == 0 || filled + n >= len {
                ReadStep::Done(filled + n)
            } else {
                ReadStep::Again(filled + n)
            }
        },
        Err(error) => {
            if error.is_interrupted() {
                ReadStep::Again(filled)
            } else {
                ReadStep::Failed(error)
            }
        },
    }
}

/// The filling of a buffer by a sequence of reads: where it stands when they are used up, or
/// how it ended.
pub open spec fn filling(filled: nat, len: nat, outcomes: Seq<Result<nat, IoErrorView>>) -> (
    ReadStepView)
    decreases outcomes.len(),
{
    if filled >= len {
        ReadStepView::Done(filled)
    } else if outcomes.len() == 0 {
        ReadStepView::Again(filled)
    } else {
        match filled_further(filled, len, outcomes[0]) {
            ReadStepView::Again(n) => filling(n, len, outcomes.skip(1)),
            end => end,
        }
    }
}

/// Whether these can be the outcomes of reads from a source with `left` bytes left: as many
/// as fit at most, and none only at the end.
pub open spec fn reads_from(
    filled: nat,
    len: nat,
    left: nat,
    outcomes: Seq<Result<nat, IoErrorView>>,
) -> bool
    decreases outcomes.len(),
{
    if filled >= len || outcomes.len() == 0 {
        true
    } else {
        match outcomes[0] {
            Ok(n) => {
                &&& n <= len - filled
                &&& n <= left
                &&& n == 0 ==> left == 0
                &&& reads_from(filled + n, len, (left - n) as nat, outcomes.skip(1))
            },
            Err(_) => reads_from(filled, len, left, outcomes.skip(1)),
        }
    }
}

/// However a source divides what it hands out, a buffer ends up full, or holds all that was
/// left of the source.
pub proof fn lemma_filling_is_full(
    filled: nat,
    len: nat,
    left: nat,
    outcomes: Seq<Result<nat, IoErrorView>>,
)
    requires
        filled <= len,
        reads_from(filled, len, left, outcomes),
    ensures
        match filling(filled, len, outcomes) {
            ReadStepView::Done(n) => n == if filled + left <= len {
                filled + left
            } else {
                len
            },
            _ => true,
        },
    decreases outcomes.len(),
{
    if filled < len && outcomes.len() > 0 {
        match outcomes[0] {
            Ok(n) => {
                if n > 0 && filled + n < len {
                    lemma_filling_is_full(
                        filled + n,
                        len,
                        (left - n) as nat,
                        outcomes.skip(1),
                    );
                }
            },
            Err(error) => {
                if error.kind == ErrorKind::Interrupted {
                    lemma_filling_is_full(filled, len, left, outcomes.skip(1));
                }
            },
        }
    }
}

/// The pieces in which a source is read: full buffers, and what is left at the end.
pub open spec fn chunks_of(source: Seq<u8>) -> Seq<Seq<u8>>
    decreases source.len(),
{
    if source.len() == 0 {
        Seq::empty()
    } else if source.len() <= BUFFER_SIZE {
        seq![source]
    } else {
        seq![source.take(BUFFER_SIZE as int)] + chunks_of(source.skip(BUFFER_SIZE as int))
    }
}

proof fn lemma_flattened_first(first: Seq<u8>, rest: Seq<Seq<u8>>)
    ensures
        flattened(seq![first] + rest) == first + flattened(rest),
    decreases rest.len(),
{
    let all = seq![first] + rest;
    if rest.len() == 0 {
        assert(all.drop_last() =~= Seq::empty());
        assert(flattened(all.drop_last()) =~= Seq::empty());
        assert(flattened(rest) =~= Seq::empty());
        assert(all.last() == first);
        assert(flattened(all) =~= first + flattened(rest));
    } else {
        assert(all.drop_last() =~= seq![first] + rest.drop_last());
        assert(all.last() == rest.last());
        lemma_flattened_first(first, rest.drop_last());
        assert(flattened(all) =~= first + flattened(rest));
    }
}

/// The pieces of a source make up the source, and all but the last are full buffers.
pub proof fn lemma_chunks_make_source(source: Seq<u8>)
    ensures
        flattened(chunks_of(source)) == source,
        aligned_but_last(chunks_of(source)),
        forall|i: int|
            0 <= i < chunks_of(source).len() ==> 0 < (#[trigger] chunks_of(source)[i]).len()
                <= BUFFER_SIZE,
        forall|i: int|
            0 <= i < chunks_of(source).len() - 1 ==> (#[trigger] chunks_of(source)[i]).len()
                == BUFFER_SIZE,
    decreases source.len(),
{
    let chunks = chunks_of(source);
    if source.len() == 0 {
        assert(flattened(chunks) =~= source);
    } else if source.len() <= BUFFER_SIZE {
        lemma_flattened_first(source, Seq::empty());
        assert(chunks =~= seq![source] + Seq::<Seq<u8>>::empty());
        assert(flattened(chunks) =~= source);
    } else {
        let first = source.take(BUFFER_SIZE as int);
        let rest = chunks_of(source.skip(BUFFER_SIZE as int));
        lemma_chunks_make_source(source.skip(BUFFER_SIZE as int));
        lemma_flattened_first(first, rest);
        assert(flattened(chunks) =~= source);
        assert forall|i: int| 0 <= i < chunks.len() implies 0 < (#[trigger] chunks[i]).len()
            <= BUFFER_SIZE by {
            if i > 0 {
                assert(chunks[i] == rest[i - 1]);
            }
        }
        assert forall|i: int| 0 <= i < chunks.len() - 1 implies (#[trigger] chunks[i]).len()
            == BUFFER_SIZE by {
            if i > 0 {
                assert(chunks[i] == rest[i - 1]);
            }
        }
    }
    assert forall|i: int| 0 <= i < chunks.len() - 1 implies (#[trigger] chunks[i]).len() % (
    PAGE as nat) == 0 by {
        assert(chunks[i].len() == BUFFER_SIZE);
    }
}

/// What the buffers hold that are filled from `source`, one after the other, until one stays
/// empty. Each of `fills` are the reads for one buffer.
pub open spec fn buffers_of(source: Seq<u8>, fills: Seq<Seq<Result<nat, IoErrorView>>>) -> Seq<
    Seq<u8>,
>
    decreases fills.len(),
{
    if fills.len() == 0 {
        Seq::empty()
    } else {
        match filling(0, BUFFER_SIZE as nat, fills[0]) {
            ReadStepView::Done(n) => if n == 0 {
                Seq::empty()
            } else {
                seq![source.take(n as int)] + buffers_of(source.skip(n as int), fills.skip(1))
            },
            _ => Seq::empty(),
        }
    }
}

/// Whether `fills` can be the reads by which `source` is read to its end: each fills a buffer
/// from what is left, none fails, and the last one finds nothing.
pub open spec fn reads_out(source: Seq<u8>, fills: Seq<Seq<Result<nat, IoErrorView>>>) -> bool
    decreases fills.len(),
{
    &&& fills.len() > 0
    &&& reads_from(0, BUFFER_SIZE as nat, source.len(), fills[0])
    &&& match filling(0, BUFFER_SIZE as nat, fills[0]) {
        ReadStepView::Done(n) => n == 0 || reads_out(source.skip(n as int), fills.skip(1)),
        _ => false,
    }
}

/// However a source divides what it hands out, the buffers that are filled from it to its end
/// hold its pieces.
pub proof fn lemma_buffers_hold_the_chunks(
    source: Seq<u8>,
    fills: Seq<Seq<Result<nat, IoErrorView>>>,
)
    requires
        reads_out(source, fills),
    ensures
        buffers_of(source, fills) == chunks_of(source),
    decreases fills.len(),
{
    lemma_filling_is_full(0, BUFFER_SIZE as nat, source.len(), fills[0]);
    if let ReadStepView::Done(n) = filling(0, BUFFER_SIZE as nat, fills[0]) {
        if n > 0 {
            lemma_buffers_hold_the_chunks(source.skip(n as int), fills.skip(1));
            if source.len() <= BUFFER_SIZE {
                assert(source.take(n as int) =~= source);
                assert(source.skip(n as int) =~= Seq::empty());
                assert(buffers_of(source, fills) =~= chunks_of(source));
            }
        }
    }
}

/// What is next in the copying of a file.
#[derive(Debug, Clone, Copy, PartialEq, Eq, Structural)]
pub enum CopyStage {
    /// A look at whether a stop was requested.
    Polling,
    /// Filling a buffer.
    Reading,
    /// Handing what was read to the writers.
    Sending,
    /// Nothing more: the writers are to end.
    Ended,
}

/// The copying of one file: what was read goes to the hash and to the writers, one for each
/// destination.
pub struct FileCopy {
    hash: StreamHash,
    total: u64,
    pending: usize,
    failure: Option<IoError>,
    stage: CopyStage,
}

/// The model of a `FileCopy`: the bytes that were hashed, the count of those that all writers
/// took, the count of those that are to be handed to them, what went wrong with reading, and
/// what is next.
pub struct CopyView {
    pub hashed: Seq<u8>,
    pub total: nat,
    pub pending: nat,
    pub failure: Option<IoErrorView>,
    pub stage: CopyStage,
}

impl View for FileCopy {
    type V = CopyView;

    closed spec fn view(&self) -> CopyView {
        CopyView {
            hashed: self.hash@,
            total: self.total as nat,
            pending: self.pending as nat,
            failure: match self.failure {
                Some(error) => Some(error@),
                None => None,
            },
            stage: self.stage,
        }
    }
}

/// The model of what the writers reported when they ended.
pub open spec fn writer_outcomes(writers: Seq<Result<(), IoError>>) -> Seq<
    Result<(), IoErrorView>,
> {
    writers.map_values(
        |outcome: Result<(), IoError>|
            match outcome {
                Ok(()) => Ok(()),
                Err(error) => Err(error@),
            },
    )
}

/// The first failure in the order of the destinations, if there is any.
pub open spec fn first_failure(writers: Seq<Result<(), IoErrorView>>) -> Option<IoErrorView>
    decreases writers.len(),
{
    if writers.len() == 0 {
        None
    } else {
        match writers[0] {
            Err(error) => Some(error),
            Ok(()) => first_failure(writers.skip(1)),
        }
    }
}

impl CopyView {
    /// A copy before anything was read.
    pub open spec fn start() -> CopyView {
        CopyView {
            hashed: Seq::empty(),
            total: 0,
            pending: 0,
            failure: None,
            stage: CopyStage::Polling,
        }
    }

    /// The copy after a look at whether a stop was requested.
    pub open spec fn polled(self, aborted: bool) -> CopyView {
        if aborted {
            CopyView { failure: Some(aborted_view()), stage: CopyStage::Ended, ..self }
        } else {
            CopyView { stage: CopyStage::Reading, ..self }
        }
    }

    /// The copy after a buffer was filled with `chunk`, or the filling failed.
    pub open spec fn read(self, chunk: Result<Seq<u8>, IoErrorView>) -> CopyView {
        match chunk {
            Ok(bytes) => if bytes.len() == 0 {
                CopyView { stage: CopyStage::Ended, ..self }
            } else {
                CopyView {
                    hashed: self.hashed + bytes,
                    pending: bytes.len(),
                    stage: CopyStage::Sending,
                    ..self
                }
            },
            Err(error) => CopyView { failure: Some(error), stage: CopyStage::Ended, ..self },
        }
    }

    /// The copy after what was read was handed to the writers. That one of them does not take
    /// it means that it died; what it died of it reports itself.
    pub open spec fn sent(self, delivered: bool) -> CopyView {
        if delivered {
            CopyView {
                total: self.total + self.pending,
                pending: 0,
                stage: CopyStage::Polling,
                ..self
            }
        } else {
            CopyView { stage: CopyStage::Ended, ..self }
        }
    }

    /// The outcome: the size and the hash of what was copied, unless reading failed or, in
    /// the order of the destinations, a writer did.
    pub open spec fn outcome(self, writers: Seq<Result<(), IoErrorView>>) -> Result<
        (nat, Seq<char>),
        IoErrorView,
    > {
        match self.failure {
            Some(error) => Err(error),
            None => match first_failure(writers) {
                Some(error) => Err(error),
                None => Ok((self.total, hash_text(self.hashed))),
            },
        }
    }
}

/// The model of the outcome of a copy.
pub open spec fn copy_outcome(outcome: Result<(u64, String), IoError>) -> Result<
    (nat, Seq<char>),
    IoErrorView,
> {
    match outcome {
        Ok((bytes, hash)) => Ok((bytes as nat, hash@)),
        Err(error) => Err(error@),
    }
}

/// The model of a filled buffer.
pub open spec fn chunk_read(outcome: Result<usize, IoError>, buffer: Seq<u8>) -> Result<
    Seq<u8>,
    IoErrorView,
> {
    match outcome {
        Ok(n) => Ok(buffer.take(n as int)),
        Err(error) => Err(error@),
    }
}

impl FileCopy {
    pub fn new() -> (copy: FileCopy)
        ensures
            copy@ == CopyView::start(),
            copy@.hashed.len() == 0,
            copy@.total == 0,
            copy@.pending == 0,
            copy@.failure is None,
            copy@.stage == CopyStage::Polling,
    {
        FileCopy {
            hash: StreamHash::new(),
            total: 0,
            pending: 0,
            failure: None,
            stage: CopyStage::Polling,
        }
    }

    /// What is next.
    pub fn stage(&self) -> (stage: CopyStage)
        ensures
            stage == self@.stage,
    {
        self.stage
    }

    /// How many bytes all writers took so far.
    pub fn total(&self) -> (total: u64)
        ensures
            total == self@.total,
    {
        self.total
    }

    /// Looks at whether a stop was requested, before each buffer.
    pub fn poll(&mut self, aborted: bool)
        requires
            old(self)@.stage == CopyStage::Polling,
        ensures
            final(self)@ == old(self)@.polled(aborted),
            final(self)@.hashed == old(self)@.hashed,
            final(self)@.total == old(self)@.total,
            final(self)@.pending == old(self)@.pending,
            aborted ==> final(self)@.stage == CopyStage::Ended && final(self)@.failure is Some
                && final(self)@.failure->0.kind == ErrorKind::Interrupted
                && final(self)@.failure->0.message == "aborted"@,
            !aborted ==> final(self)@.stage == CopyStage::Reading && final(self)@.failure
                == old(self)@.failure,
    {
        if aborted {
            self.failure = Some(IoError::aborted());
            self.stage = CopyStage::Ended;
        } else {
            self.stage = CopyStage::Reading;
        }
    }

    /// Takes the outcome of filling `buffer`.
    pub fn read(&mut self, outcome: Result<usize, IoError>, buffer: &[u8])
        requires
            old(self)@.stage == CopyStage::Reading,
            outcome matches Ok(n) ==> n <= buffer@.len(),
        ensures
            final(self)@ == old(self)@.read(chunk_read(outcome, buffer@)),
            final(self)@.total == old(self)@.total,
            outcome matches Err(error) ==> final(self)@.failure == Some(error@)
                && final(self)@.stage == CopyStage::Ended && final(self)@.hashed
                == old(self)@.hashed,
            outcome matches Ok(n) ==> final(self)@.failure == old(self)@.failure
                && final(self)@.hashed == old(self)@.hashed + buffer@.take(n as int),
            outcome matches Ok(n) ==> if n == 0 {
                final(self)@.stage == CopyStage::Ended
            } else {
                final(self)@.stage == CopyStage::Sending && final(self)@.pending == n
            },
    {
        match outcome {
            Ok(n) => {
                if n == 0 {
                    self.stage = CopyStage::Ended;
                    assert(self@.hashed + buffer@.take(0) =~= self@.hashed);
                } else {
                    let chunk = &buffer[0..n];
                    self.hash.update(chunk);
                    assert(chunk@ =~= buffer@.take(n as int));
                    self.pending = n;
                    self.stage = CopyStage::Sending;
                }
            },
            Err(error) => {
                self.failure = Some(error);
                self.stage = CopyStage::Ended;
            },
        }
    }

    /// Takes note of whether all writers took what was read. The result is how much has been
    /// copied, if that is worth reporting.
    pub fn sent(&mut self, delivered: bool) -> (progress: Option<u64>)
        requires
            old(self)@.stage == CopyStage::Sending,
            delivered ==> old(self)@.total + old(self)@.pending <= u64::MAX,
        ensures
            final(self)@ == old(self)@.sent(delivered),
            final(self)@.hashed == old(self)@.hashed,
            final(self)@.failure == old(self)@.failure,
            delivered ==> final(self)@.total == old(self)@.total + old(self)@.pending
                && final(self)@.pending == 0 && final(self)@.stage == CopyStage::Polling,
            !delivered ==> final(self)@.total == old(self)@.total && final(self)@.stage
                == CopyStage::Ended,
            match progress {
                Some(total) => delivered && total == final(self)@.total,
                None => !delivered,
            },
    {
        if delivered {
            self.total = self.total + self.pending as u64;
            self.pending = 0;
            self.stage = CopyStage::Polling;
            Some(self.total)
        } else {
            self.stage = CopyStage::Ended;
            None
        }
    }

    /// The outcome of the copy, once the writers have ended.
    pub fn conclude(self, writers: Vec<Result<(), IoError>>) -> (outcome: Result<
        (u64, String),
        IoError,
    >)
        requires
            self@.stage == CopyStage::Ended,
        ensures
            copy_outcome(outcome) == self@.outcome(writer_outcomes(writers@)),
            self@.failure matches Some(error) ==> outcome is Err && outcome->Err_0@ == error,
            self@.failure is None ==> (outcome is Err <==> exists|i: int|
                0 <= i < writers@.len() && #[trigger] writers@[i] is Err),
            self@.failure is None && outcome is Err ==> exists|i: int|
                0 <= i < writers@.len() && (#[trigger] writers@[i]) is Err && outcome->Err_0@
                    == writers@[i]->Err_0@ && forall|j: int|
                    0 <= j < i ==> #[trigger] writers@[j] is Ok,
            outcome matches Ok((size, hash)) ==> size == self@.total && hash@ == hash_text(
                self@.hashed,
            ),
    {
        if let Some(error) = self.failure {
            return Err(error);
        }
        let ghost outcomes = writer_outcomes(writers@);
        assert(outcomes.skip(0) =~= outcomes);
        let mut i: usize = 0;
        while i < writers.len()
            invariant
                i <= writers@.len(),
                outcomes == writer_outcomes(writers@),
                forall|j: int| 0 <= j < i ==> #[trigger] writers@[j] is Ok,
                first_failure(outcomes) == first_failure(outcomes.skip(i as int)),
                self@.failure is None,
            decreases writers@.len() - i,
        {
            assert(outcomes.skip(i as int)[0] == outcomes[i as int]);
            if let Err(error) = &writers[i] {
                return Err(error.clone());
            }
            assert(outcomes.skip(i as int).skip(1) =~= outcomes.skip(i + 1));
            i += 1;
        }
        Ok((self.total, self.hash.text()))
    }
}

/// A copy that has handed all of `chunks` to its writers.
pub open spec fn copied(chunks: Seq<Seq<u8>>) -> CopyView
    decreases chunks.len(),
{
    if chunks.len() == 0 {
        CopyView::start()
    } else {
        copied(chunks.drop_last()).polled(false).read(Ok(chunks.last())).sent(true)
    }
}

proof fn lemma_copied(chunks: Seq<Seq<u8>>)
    requires
        forall|i: int| 0 <= i < chunks.len() ==> (#[trigger] chunks[i]).len() > 0,
    ensures
        copied(chunks) == (CopyView {
            hashed: flattened(chunks),
            total: flattened(chunks).len(),
            pending: 0,
            failure: None,
            stage: CopyStage::Polling,
        }),
    decreases chunks.len(),
{
    if chunks.len() > 0 {
        let fewer = chunks.drop_last();
        assert forall|i: int| 0 <= i < fewer.len() implies (#[trigger] fewer[i]).len() > 0 by {
            assert(fewer[i] == chunks[i]);
        }
        lemma_copied(fewer);
        assert(chunks.last() == chunks[chunks.len() - 1]);
    }
}

/// A copy that runs to the end of its source, and whose writers all succeed, reports the size
/// and the hash of the source; and every destination, cached or not, then holds the source,
/// byte for byte.
pub proof fn lemma_copy_is_faithful(
    source: Seq<u8>,
    direct: bool,
    writers: Seq<Result<(), IoErrorView>>,
)
    requires
        first_failure(writers) is None,
    ensures
        copied(chunks_of(source)).polled(false).read(Ok(Seq::empty())).outcome(writers) == Ok::<
            _,
            IoErrorView,
        >((source.len(), hash_text(source))),
        fed(direct, chunks_of(source)) is Some,
        file_contents(fed(direct, chunks_of(source))->0) == source,
{
    lemma_chunks_make_source(source);
    lemma_copied(chunks_of(source));
    lemma_aligned_chunks_accepted(direct, chunks_of(source));
    lemma_file_holds_chunks(direct, chunks_of(source));
}

/// A copy that runs to the end of its source, however the reads divide it, reports the size and
/// the hash of the source, and every destination then holds the source.
pub proof fn lemma_copy_by_reads_is_faithful(
    source: Seq<u8>,
    fills: Seq<Seq<Result<nat, IoErrorView>>>,
    direct: bool,
    writers: Seq<Result<(), IoErrorView>>,
)
    requires
        reads_out(source, fills),
        first_failure(writers) is None,
    ensures
        ({
            let chunks = buffers_of(source, fills);
            &&& copied(chunks).polled(false).read(Ok(Seq::empty())).outcome(writers) == Ok::<
                _,
                IoErrorView,
            >((source.len(), hash_text(source)))
            &&& fed(direct, chunks) is Some
            &&& file_contents(fed(direct, chunks)->0) == source
        }),
{
    lemma_buffers_hold_the_chunks(source, fills);
    lemma_copy_is_faithful(source, direct, writers);
}

/// A copy that was stopped, or whose reading or any of whose writers failed, reports a
/// failure, whatever else happened.
pub proof fn lemma_failed_copy_reports(
    copy: CopyView,
    writers: Seq<Result<(), IoErrorView>>,
    i: int,
)
    requires
        copy.failure is Some || (0 <= i < writers.len() && writers[i] is Err),
    ensures
        copy.outcome(writers) is Err,
    decreases writers.len(),
{
    if copy.failure is None && writers[0] is Ok {
        let rest = writers.skip(1);
        assert(rest[i - 1] == writers[i]);
        lemma_failed_copy_reports(copy, rest, i - 1);
    }
}

/// A step of the copying of a file.
pub enum CopyStep {
    Polled(bool),
    Read(Result<Seq<u8>, IoErrorView>),
    Sent(bool),
}

impl CopyView {
    /// Whether this step is due.
    pub open spec fn due(self, step: CopyStep) -> bool {
        match step {
            CopyStep::Polled(_) => self.stage == CopyStage::Polling,
            CopyStep::Read(_) => self.stage == CopyStage::Reading,
            CopyStep::Sent(_) => self.stage == CopyStage::Sending,
        }
    }

    /// The copy after a step.
    pub open spec fn did(self, step: CopyStep) -> CopyView {
        match step {
            CopyStep::Polled(aborted) => self.polled(aborted),
            CopyStep::Read(chunk) => self.read(chunk),
            CopyStep::Sent(delivered) => self.sent(delivered),
        }
    }
}

/// A copy after these steps.
pub open spec fn copy_after(steps: Seq<CopyStep>) -> CopyView
    decreases steps.len(),
{
    if steps.len() == 0 {
        CopyView::start()
    } else {
        copy_after(steps.drop_last()).did(steps.last())
    }
}

/// Whether these steps are due, one after the other.
pub open spec fn copy_due(steps: Seq<CopyStep>) -> bool
    decreases steps.len(),
{
    steps.len() > 0 ==> copy_due(steps.drop_last()) && copy_after(steps.drop_last()).due(
        steps.last(),
    )
}

/// What was read in the course of these steps.
pub open spec fn bytes_read(steps: Seq<CopyStep>) -> Seq<u8>
    decreases steps.len(),
{
    if steps.len() == 0 {
        Seq::empty()
    } else {
        let before = bytes_read(steps.drop_last());
        match steps.last() {
            CopyStep::Read(Ok(bytes)) => before + bytes,
            _ => before,
        }
    }
}

/// Whatever the course of a copy: it hashes what it reads, and unless a writer died, it has
/// handed over all that it has read when it ends, and counts it.
pub proof fn lemma_copy_counts_what_it_hashes(steps: Seq<CopyStep>)
    requires
        copy_due(steps),
    ensures
        ({
            let copy = copy_after(steps);
            &&& copy.hashed == bytes_read(steps)
            &&& copy.total + copy.pending <= bytes_read(steps).len()
            &&& (forall|k: int| 0 <= k < steps.len() ==> #[trigger] steps[k] != CopyStep::Sent(false))
                ==> copy.total + copy.pending == bytes_read(steps).len() && (copy.stage
                != CopyStage::Sending ==> copy.pending == 0)
        }),
    decreases steps.len(),
{
    if steps.len() > 0 {
        let fewer = steps.drop_last();
        lemma_copy_counts_what_it_hashes(fewer);
        lemma_nothing_pending(fewer);
        let copy = copy_after(steps);
        assert(copy.hashed =~= bytes_read(steps));
        assert(steps.last() == steps[steps.len() - 1]);
        if forall|k: int| 0 <= k < steps.len() ==> #[trigger] steps[k] != CopyStep::Sent(false) {
            assert forall|k: int| 0 <= k < fewer.len() implies #[trigger] fewer[k]
                != CopyStep::Sent(false) by {
                assert(fewer[k] == steps[k]);
            }
        }
    }
}

proof fn lemma_nothing_pending(steps: Seq<CopyStep>)
    requires
        copy_due(steps),
    ensures
        copy_after(steps).stage == CopyStage::Polling || copy_after(steps).stage
            == CopyStage::Reading ==> copy_after(steps).pending == 0,
    decreases steps.len(),
{
    if steps.len() > 0 {
        lemma_nothing_pending(steps.drop_last());
    }
}

/// Before each buffer it was looked at whether a stop was requested, and none was.
pub proof fn lemma_copy_polls_before_reading(steps: Seq<CopyStep>, k: int)
    requires
        copy_due(steps),
        0 <= k < steps.len(),
        steps[k] is Read,
    ensures
        k > 0,
        steps[k - 1] == CopyStep::Polled(false),
    decreases steps.len(),
{
    let fewer = steps.drop_last();
    if k < fewer.len() {
        assert(fewer[k] == steps[k]);
        lemma_copy_polls_before_reading(fewer, k);
        assert(fewer[k - 1] == steps[k - 1]);
    } else {
        assert(copy_after(fewer).stage == CopyStage::Reading);
        assert(fewer.len() > 0);
        assert(fewer.last() == steps[k - 1]);
    }
}

/// Whatever the course of a copy: a failed read, or a look that finds a stop requested, ends it,
/// and is then what it reports, whatever the writers report and however much was copied before.
pub proof fn lemma_failed_reading_fails_the_copy(
    steps: Seq<CopyStep>,
    k: int,
    writers: Seq<Result<(), IoErrorView>>,
)
    requires
        copy_due(steps),
        0 <= k < steps.len(),
    ensures
        steps[k] matches CopyStep::Read(Err(error)) ==> k == steps.len() - 1 && copy_after(
            steps,
        ).outcome(writers) == Err::<(nat, Seq<char>), IoErrorView>(error),
        steps[k] == CopyStep::Polled(true) ==> k == steps.len() - 1 && copy_after(steps).outcome(
            writers,
        ) is Err && copy_after(steps).outcome(writers)->Err_0.kind == ErrorKind::Interrupted,
{
    if steps[k] == CopyStep::Polled(true) || (steps[k] is Read && steps[k]->Read_0 is Err) {
        lemma_only_the_last_step_ends(steps, k);
    }
    assert(steps[steps.len() - 1] == steps.last());
}

proof fn lemma_only_the_last_step_ends(steps: Seq<CopyStep>, k: int)
    requires
        copy_due(steps),
        0 <= k < steps.len(),
        steps[k] == CopyStep::Polled(true) || (steps[k] is Read && steps[k]->Read_0 is Err)
            || steps[k] == CopyStep::Sent(false),
    ensures
        k == steps.len() - 1,
    decreases steps.len(),
{
    let fewer = steps.drop_last();
    if k < fewer.len() {
        assert(fewer[k] == steps[k]);
        lemma_only_the_last_step_ends(fewer, k);
        assert(fewer.last() == steps[k]);
    }
}

/// A copy that reports success has read its source to the end, with no failed read and no stop
/// among its steps, and no writer has failed; it reports the count of what the writers took, and
/// the hash of all that was read.
pub proof fn lemma_success_means_no_failure(
    steps: Seq<CopyStep>,
    writers: Seq<Result<(), IoErrorView>>,
)
    requires
        copy_due(steps),
        copy_after(steps).stage == CopyStage::Ended,
        copy_after(steps).outcome(writers) is Ok,
    ensures
        forall|k: int|
            0 <= k < steps.len() ==> !(#[trigger] steps[k] matches CopyStep::Read(Err(_)))
                && steps[k] != CopyStep::Polled(true),
        forall|i: int| 0 <= i < writers.len() ==> (#[trigger] writers[i]) is Ok,
        copy_after(steps).outcome(writers)->Ok_0.1 == hash_text(bytes_read(steps)),
        (forall|k: int| 0 <= k < steps.len() ==> #[trigger] steps[k] != CopyStep::Sent(false)) ==> {
            &&& copy_after(steps).outcome(writers)->Ok_0.0 == bytes_read(steps).len()
            &&& steps.len() > 0
            &&& steps.last() matches CopyStep::Read(Ok(bytes))
            &&& bytes.len() == 0
        },
{
    assert forall|k: int| 0 <= k < steps.len() implies !(#[trigger] steps[k] matches CopyStep::Read(
        Err(_),
    )) && steps[k] != CopyStep::Polled(true) by {
        lemma_failed_reading_fails_the_copy(steps, k, writers);
    }
    assert forall|i: int| 0 <= i < writers.len() implies (#[trigger] writers[i]) is Ok by {
        if writers[i] is Err {
            lemma_failed_copy_reports(copy_after(steps), writers, i);
        }
    }
    lemma_copy_counts_what_it_hashes(steps);
    if steps.len() > 0 {
        assert(steps.last() == steps[steps.len() - 1]);
    }
}

/// The failure that is reported of the writers is that of the first one, in the order of the
/// destinations, that failed.
pub proof fn lemma_first_failure_is_first(writers: Seq<Result<(), IoErrorView>>, i: int)
    requires
        0 <= i < writers.len(),
        writers[i] is Err,
        forall|j: int| 0 <= j < i ==> (#[trigger] writers[j]) is Ok,
    ensures
        first_failure(writers) == Some(writers[i]->Err_0),
    decreases i,
{
    if i > 0 {
        assert(writers[0] is Ok);
        assert(writers.skip(1)[i - 1] == writers[i]);
        assert forall|j: int| 0 <= j < i - 1 implies (#[trigger] writers.skip(1)[j]) is Ok by {
            assert(writers[j + 1] is Ok);
        }
        lemma_first_failure_is_first(writers.skip(1), i - 1);
    }
}

} // verus!
