//! What a verification that has succeeded says of the files.
use vstd::prelude::*;

use crate::coordinator::{
    lemma_verifiable, verifiable, OutcomeView, ReportView, VerifyEventView, VerifyView,
};
use crate::engine::ResultView;
use crate::failure::{ErrorKind, IoErrorView};
use crate::hashing::{hash_text, xxh3_digest};
use crate::messages::{names_known, outcome_known};
use crate::text::{lemma_hex16_faithful, lemma_hex_digits_len};
use crate::verdict::{
    judged, lemma_first_hash, lemma_verified_iff_unanimous, offset_of, reference_of,
    reference_target, target_failures, targets_failures, unanimous, HashView, VerdictView,
};

verus! {

/// A verification after a sequence of events.
pub open spec fn after(run: VerifyView, events: Seq<VerifyEventView>) -> VerifyView
    decreases events.len(),
{
    if events.len() == 0 {
        run
    } else {
        after(run, events.drop_last()).stepped(events.last())
    }
}

/// Whether a verification can go through these events: each comes before it is over, and an
/// answer is for a file that has not been judged.
pub open spec fn possible(run: VerifyView, events: Seq<VerifyEventView>) -> bool
    decreases events.len(),
{
    events.len() > 0 ==> {
        &&& possible(run, events.drop_last())
        &&& !after(run, events.drop_last()).over
        &&& after(run, events.drop_last()).expects(events.last())
    }
}

/// Whether an answer is the one in the table.
pub open spec fn agrees(event: VerifyEventView, answers: Seq<Seq<HashView>>) -> bool {
    event matches VerifyEventView::Answer(seq, device, answer) ==> answers[seq as int][device as int]
        == answer
}

/// Whether all answers are those in the table.
pub open spec fn all_agree(events: Seq<VerifyEventView>, answers: Seq<Seq<HashView>>) -> bool {
    forall|k: int| 0 <= k < events.len() ==> agrees(#[trigger] events[k], answers)
}

/// Whether the table has an answer of each device for each file.
pub open spec fn is_table(answers: Seq<Seq<HashView>>, files: nat, devices: nat) -> bool {
    &&& answers.len() == files
    &&& forall|s: int| 0 <= s < files ==> (#[trigger] answers[s]).len() == devices
}

/// What the table says of the `s`-th file.
pub open spec fn verdict_at(
    initial: Seq<ResultView>,
    destinations: nat,
    with_source: bool,
    answers: Seq<Seq<HashView>>,
    s: int,
) -> VerdictView {
    judged(
        with_source,
        destinations,
        initial[verifiable(initial)[s] as int].inflight_hash,
        answers[s],
    )
}

/// Whether the table verifies the `s`-th file.
pub open spec fn verified_at(
    initial: Seq<ResultView>,
    destinations: nat,
    with_source: bool,
    answers: Seq<Seq<HashView>>,
    s: int,
) -> bool {
    verdict_at(initial, destinations, with_source, answers, s).failures.len() == 0
}

/// How many of the first `n` files the table verifies.
pub open spec fn verified_among(
    initial: Seq<ResultView>,
    destinations: nat,
    with_source: bool,
    answers: Seq<Seq<HashView>>,
    n: nat,
) -> nat
    decreases n,
{
    if n == 0 {
        0
    } else {
        verified_among(initial, destinations, with_source, answers, (n - 1) as nat) + if verified_at(
            initial,
            destinations,
            with_source,
            answers,
            n - 1,
        ) {
            1nat
        } else {
            0nat
        }
    }
}

/// A result with the hash of a verified file filled in where none was recorded.
pub open spec fn filled(result: ResultView, verdict: VerdictView) -> ResultView {
    if verdict.failures.len() == 0 && result.inflight_hash.len() == 0 && verdict.reference is Some {
        ResultView { inflight_hash: verdict.reference->0, ..result }
    } else {
        result
    }
}

/// Whether a verification of `initial` stands where it does because of the answers in the
/// table, and of nothing else.
spec fn explained(run: VerifyView, initial: Seq<ResultView>, answers: Seq<Seq<HashView>>) -> bool {
    let n = run.destinations;
    let src = run.with_source;
    &&& run.indices == verifiable(initial)
    &&& run.results.len() == initial.len()
    &&& is_table(answers, run.indices.len(), run.devices())
    &&& forall|s: int, d: int|
        run.next <= s < run.indices.len() && 0 <= d < run.devices()
            && (#[trigger] run.pending[s][d]) is Some ==> run.pending[s][d]->0 == answers[s][d]
    &&& forall|s: int|
        0 <= s < run.next ==> run.results[#[trigger] run.indices[s] as int] == filled(
            initial[run.indices[s] as int],
            verdict_at(initial, n, src, answers, s),
        )
    &&& forall|s: int|
        run.next <= s < run.indices.len() ==> run.results[#[trigger] run.indices[s] as int]
            == initial[run.indices[s] as int]
    &&& forall|i: int|
        0 <= i < initial.len() && !(#[trigger] initial[i]).success ==> run.results[i] == initial[i]
    &&& run.all_ok == ((forall|s: int|
        0 <= s < run.next ==> #[trigger] verified_at(initial, n, src, answers, s)) && !(run.over
        && !run.aborted && run.next < run.indices.len()))
    &&& run.verified == verified_among(initial, n, src, answers, run.next)
}

proof fn lemma_explained_at_start(
    initial: Seq<ResultView>,
    destinations: nat,
    with_source: bool,
    answers: Seq<Seq<HashView>>,
)
    requires
        is_table(
            answers,
            verifiable(initial).len(),
            destinations + offset_of(with_source),
        ),
    ensures
        explained(VerifyView::start(initial, destinations, with_source), initial, answers),
        VerifyView::start(initial, destinations, with_source).wf(),
{
    lemma_verifiable(initial);
}

proof fn lemma_explained_advance(
    run: VerifyView,
    initial: Seq<ResultView>,
    answers: Seq<Seq<HashView>>,
)
    requires
        run.wf(),
        !run.over,
        run.complete(),
        explained(run, initial, answers),
    ensures
        explained(run.advanced(), initial, answers),
        run.advanced().wf(),
{
    let n = run.destinations;
    let src = run.with_source;
    let next = run.next as int;
    let index = run.indices[next] as int;
    let to = run.advanced();
    assert(run.pending[next].len() == run.devices());
    assert(answers[next].len() == run.devices());
    assert forall|d: int| 0 <= d < run.devices() implies run.row()[d] == answers[next][d] by {
        assert(run.pending[next][d] is Some);
    }
    assert(run.row() =~= answers[next]);
    assert(run.results[index] == initial[index]);
    assert(run.verdict() == verdict_at(initial, n, src, answers, next));
    assert(to.results[index] == filled(initial[index], run.verdict()));
    assert(initial[index].success) by {
        lemma_verifiable(initial);
    }
    assert forall|s: int| 0 <= s < to.next implies to.results[#[trigger] to.indices[s] as int]
        == filled(initial[to.indices[s] as int], verdict_at(initial, n, src, answers, s)) by {
        if s < next {
            assert(run.indices[s] != run.indices[next]);
        }
    }
    assert forall|s: int| to.next <= s < to.indices.len() implies to.results[
        #[trigger] to.indices[s] as int] == initial[to.indices[s] as int] by {
        assert(run.indices[next] != run.indices[s]);
    }
    let ok = run.verdict().failures.len() == 0;
    assert(ok == verified_at(initial, n, src, answers, next));
    if to.all_ok {
        assert forall|s: int| 0 <= s < to.next implies #[trigger] verified_at(
            initial,
            n,
            src,
            answers,
            s,
        ) by {
        }
    } else if run.all_ok {
        assert(!verified_at(initial, n, src, answers, next));
    } else {
        let s = choose|s: int|
            0 <= s < run.next && !(#[trigger] verified_at(initial, n, src, answers, s));
        assert(0 <= s < to.next);
    }
}

proof fn lemma_explained_drain(
    run: VerifyView,
    initial: Seq<ResultView>,
    answers: Seq<Seq<HashView>>,
)
    requires
        run.wf(),
        !run.over,
        !run.aborted,
        explained(run, initial, answers),
    ensures
        ({
            let to = run.drained();
            &&& VerifyView { over: to.aborted, ..to }.wf()
            &&& !to.over
            &&& explained(to, initial, answers)
            &&& to.destinations == run.destinations
            &&& to.with_source == run.with_source
        }),
    decreases run.indices.len() - run.next,
{
    if run.complete() && !run.interrupted() {
        lemma_explained_advance(run, initial, answers);
        lemma_explained_drain(run.advanced(), initial, answers);
    }
}

proof fn lemma_taken_keeps_wf(run: VerifyView, event: VerifyEventView)
    requires
        run.wf(),
        run.expects(event),
    ensures
        run.taken(event).wf(),
{
    let taken = run.taken(event);
    assert forall|s: int| 0 <= s < taken.pending.len() implies (
    #[trigger] taken.pending[s]).len() == taken.devices() by {
        assert(run.pending[s].len() == run.devices());
    }
}

proof fn lemma_explained_taken(
    run: VerifyView,
    initial: Seq<ResultView>,
    answers: Seq<Seq<HashView>>,
    event: VerifyEventView,
)
    requires
        run.wf(),
        !run.over,
        run.expects(event),
        agrees(event, answers),
        explained(run, initial, answers),
    ensures
        run.taken(event).wf(),
        !run.taken(event).over,
        !run.taken(event).aborted,
        explained(run.taken(event), initial, answers),
{
    let taken = run.taken(event);
    if let VerifyEventView::Answer(seq, device, answer) = event {
        assert forall|s: int, d: int|
            taken.next <= s < taken.indices.len() && 0 <= d < taken.devices() && (
            #[trigger] taken.pending[s][d]) is Some implies taken.pending[s][d]->0
            == answers[s][d] by {
            assert(run.pending[s].len() == run.devices());
            if s != seq || d != device {
                assert(taken.pending[s][d] == run.pending[s][d]);
            }
        }
    }
    lemma_taken_keeps_wf(run, event);
}

proof fn lemma_explained_step(
    run: VerifyView,
    initial: Seq<ResultView>,
    answers: Seq<Seq<HashView>>,
    event: VerifyEventView,
)
    requires
        run.wf(),
        !run.over,
        run.expects(event),
        agrees(event, answers),
        explained(run, initial, answers),
    ensures
        run.stepped(event).wf(),
        explained(run.stepped(event), initial, answers),
        run.stepped(event).destinations == run.destinations,
        run.stepped(event).with_source == run.with_source,
{
    lemma_explained_taken(run, initial, answers, event);
    lemma_explained_drain(run.taken(event), initial, answers);
}

proof fn lemma_explained_after(
    initial: Seq<ResultView>,
    destinations: nat,
    with_source: bool,
    answers: Seq<Seq<HashView>>,
    events: Seq<VerifyEventView>,
)
    requires
        is_table(
            answers,
            verifiable(initial).len(),
            destinations + offset_of(with_source),
        ),
        possible(VerifyView::start(initial, destinations, with_source), events),
        all_agree(events, answers),
    ensures
        ({
            let run = after(VerifyView::start(initial, destinations, with_source), events);
            &&& run.wf()
            &&& explained(run, initial, answers)
            &&& run.destinations == destinations
            &&& run.with_source == with_source
        }),
    decreases events.len(),
{
    let start = VerifyView::start(initial, destinations, with_source);
    if events.len() == 0 {
        lemma_explained_at_start(initial, destinations, with_source, answers);
    } else {
        let fewer = events.drop_last();
        assert forall|k: int| 0 <= k < fewer.len() implies agrees(#[trigger] fewer[k], answers) by {
            assert(fewer[k] == events[k]);
        }
        lemma_explained_after(initial, destinations, with_source, answers, fewer);
        assert(events.last() == events[events.len() - 1]);
        lemma_explained_step(after(start, fewer), initial, answers, events.last());
    }
}

/// A verification that has succeeded has looked at every result but the failed ones, and of
/// each of them all devices found one and the same hash: the one that the copying recorded if
/// it did, and in any case the one that the result holds now.
pub proof fn lemma_passed_is_unanimous(
    initial: Seq<ResultView>,
    destinations: nat,
    with_source: bool,
    answers: Seq<Seq<HashView>>,
    events: Seq<VerifyEventView>,
)
    requires
        destinations + offset_of(with_source) > 0,
        is_table(answers, verifiable(initial).len(), destinations + offset_of(with_source)),
        possible(VerifyView::start(initial, destinations, with_source), events),
        all_agree(events, answers),
        ({
            let run = after(VerifyView::start(initial, destinations, with_source), events);
            run.over && run.passed()
        }),
    ensures
        ({
            let run = after(VerifyView::start(initial, destinations, with_source), events);
            &&& run.verified == verifiable(initial).len()
            &&& forall|s: int|
                #![trigger answers[s]]
                0 <= s < verifiable(initial).len() ==> unanimous(
                    initial[verifiable(initial)[s] as int].inflight_hash,
                    answers[s],
                    run.results[verifiable(initial)[s] as int].inflight_hash,
                )
        }),
{
    let run = after(VerifyView::start(initial, destinations, with_source), events);
    lemma_explained_after(initial, destinations, with_source, answers, events);
    let total = verifiable(initial).len();
    assert(run.next == total);
    lemma_all_verified(initial, destinations, with_source, answers, total);
    assert forall|s: int| #![trigger answers[s]] 0 <= s < total implies unanimous(
        initial[verifiable(initial)[s] as int].inflight_hash,
        answers[s],
        run.results[verifiable(initial)[s] as int].inflight_hash,
    ) by {
        let before = initial[verifiable(initial)[s] as int];
        assert(verified_at(initial, destinations, with_source, answers, s));
        lemma_verified_iff_unanimous(
            with_source,
            destinations,
            before.inflight_hash,
            answers[s],
        );
        let verdict = verdict_at(initial, destinations, with_source, answers, s);
        assert(run.results[run.indices[s] as int] == filled(before, verdict));
    }
}

proof fn lemma_all_verified(
    initial: Seq<ResultView>,
    destinations: nat,
    with_source: bool,
    answers: Seq<Seq<HashView>>,
    n: nat,
)
    requires
        forall|s: int|
            0 <= s < n ==> #[trigger] verified_at(initial, destinations, with_source, answers, s),
    ensures
        verified_among(initial, destinations, with_source, answers, n) == n,
    decreases n,
{
    if n > 0 {
        lemma_all_verified(initial, destinations, with_source, answers, (n - 1) as nat);
        assert(verified_at(initial, destinations, with_source, answers, n - 1));
    }
}

/// It does not matter in which order the answers come: two verifications of the same results
/// that got the same answers and judged every file end with the same results, the same number
/// of verified files and the same success.
pub proof fn lemma_order_of_answers_is_irrelevant(
    initial: Seq<ResultView>,
    destinations: nat,
    with_source: bool,
    answers: Seq<Seq<HashView>>,
    one: Seq<VerifyEventView>,
    other: Seq<VerifyEventView>,
)
    requires
        is_table(answers, verifiable(initial).len(), destinations + offset_of(with_source)),
        possible(VerifyView::start(initial, destinations, with_source), one),
        possible(VerifyView::start(initial, destinations, with_source), other),
        all_agree(one, answers),
        all_agree(other, answers),
        after(VerifyView::start(initial, destinations, with_source), one).next == verifiable(
            initial,
        ).len(),
        after(VerifyView::start(initial, destinations, with_source), other).next == verifiable(
            initial,
        ).len(),
    ensures
        ({
            let a = after(VerifyView::start(initial, destinations, with_source), one);
            let b = after(VerifyView::start(initial, destinations, with_source), other);
            &&& a.results == b.results
            &&& a.verified == b.verified
            &&& a.all_ok == b.all_ok
            &&& a.passed() == b.passed()
        }),
{
    let start = VerifyView::start(initial, destinations, with_source);
    let a = after(start, one);
    let b = after(start, other);
    lemma_explained_after(initial, destinations, with_source, answers, one);
    lemma_explained_after(initial, destinations, with_source, answers, other);
    lemma_not_stopped_at_the_end(start, one);
    lemma_not_stopped_at_the_end(start, other);
    lemma_verifiable(initial);
    assert forall|i: int| 0 <= i < initial.len() implies a.results[i] == b.results[i] by {
        if initial[i].success {
            assert(verifiable(initial).contains(i as nat));
            let s = choose|s: int|
                0 <= s < verifiable(initial).len() && verifiable(initial)[s] == i as nat;
            assert(a.indices[s] == i as nat);
            assert(b.indices[s] == i as nat);
        }
    }
    assert(a.results =~= b.results);
}

proof fn lemma_drain_stops_early(run: VerifyView)
    requires
        !run.aborted,
    ensures
        run.drained().aborted ==> run.drained().next < run.drained().indices.len(),
        run.drained().indices == run.indices,
    decreases run.indices.len() - run.next,
{
    if run.complete() && !run.interrupted() {
        lemma_drain_stops_early(run.advanced());
    }
}

proof fn lemma_not_stopped_at_the_end(run: VerifyView, events: Seq<VerifyEventView>)
    requires
        possible(run, events),
        !run.aborted,
    ensures
        after(run, events).aborted ==> after(run, events).over && after(run, events).next < after(
            run,
            events,
        ).indices.len(),
    decreases events.len(),
{
    if events.len() > 0 {
        let fewer = events.drop_last();
        lemma_not_stopped_at_the_end(run, fewer);
        lemma_drain_stops_early(after(run, fewer).taken(events.last()));
    }
}

/// At every moment a verification has changed nothing of the results but the hashes that were
/// missing in results of files that were not failed.
pub proof fn lemma_only_missing_hashes_are_filled(
    initial: Seq<ResultView>,
    destinations: nat,
    with_source: bool,
    answers: Seq<Seq<HashView>>,
    events: Seq<VerifyEventView>,
    i: int,
)
    requires
        is_table(answers, verifiable(initial).len(), destinations + offset_of(with_source)),
        possible(VerifyView::start(initial, destinations, with_source), events),
        all_agree(events, answers),
        0 <= i < initial.len(),
    ensures
        ({
            let run = after(VerifyView::start(initial, destinations, with_source), events);
            let hash = run.results[i].inflight_hash;
            &&& run.results.len() == initial.len()
            &&& run.results[i] == ResultView { inflight_hash: hash, ..initial[i] }
            &&& hash != initial[i].inflight_hash ==> initial[i].success
                && initial[i].inflight_hash.len() == 0
        }),
{
    lemma_explained_after(initial, destinations, with_source, answers, events);
    lemma_verifiable(initial);
    let run = after(VerifyView::start(initial, destinations, with_source), events);
    if initial[i].success {
        assert(verifiable(initial).contains(i as nat));
        let s = choose|s: int|
            0 <= s < verifiable(initial).len() && verifiable(initial)[s] == i as nat;
        assert(run.indices[s] == i as nat);
    }
}

/// Whether no answer for a file from the `s`-th on is missing, and none says that its device
/// was stopped.
pub open spec fn all_answered(run: VerifyView) -> bool {
    forall|s: int, d: int|
        run.next <= s < run.indices.len() && 0 <= d < run.devices() ==> {
            &&& (#[trigger] run.pending[s][d]) is Some
            &&& run.pending[s][d]->0 is Err ==> run.pending[s][d]->0->Err_0.kind
                != ErrorKind::Interrupted
        }
}

/// A verification is over, with every file judged, as soon as all answers have come, whatever
/// the last event was.
pub proof fn lemma_all_answers_end_it(run: VerifyView, event: VerifyEventView)
    requires
        run.wf(),
        !run.over,
        run.expects(event),
        all_answered(run.taken(event)),
    ensures
        run.stepped(event).over,
        !run.stepped(event).aborted,
        run.stepped(event).next == run.indices.len(),
{
    lemma_taken_keeps_wf(run, event);
    lemma_drain_to_the_end(run.taken(event));
}

proof fn lemma_drain_to_the_end(run: VerifyView)
    requires
        run.wf(),
        !run.over,
        all_answered(run),
    ensures
        run.drained().next == run.indices.len(),
        run.drained().indices == run.indices,
        !run.drained().aborted,
    decreases run.indices.len() - run.next,
{
    if run.next < run.indices.len() {
        let row = run.pending[run.next as int];
        assert(row.len() == run.devices());
        assert forall|d: int| 0 <= d < row.len() implies (#[trigger] row[d]) is Some && !(
        run.row()[d] is Err && run.row()[d]->Err_0.kind == ErrorKind::Interrupted) by {
            assert(run.pending[run.next as int][d] is Some);
        }
        assert(run.complete());
        assert(!run.interrupted());
        lemma_drain_to_the_end(run.advanced());
    }
}

/// Whether a device has answered for a file in the course of these events.
pub open spec fn has_answered(events: Seq<VerifyEventView>, seq: nat, device: nat) -> bool {
    exists|k: int|
        0 <= k < events.len() && (#[trigger] events[k] matches VerifyEventView::Answer(s, d, _)
            && s == seq && d == device)
}

/// An answer that a device has not given before is never too late: a file is judged only once
/// all devices have answered for it.
pub proof fn lemma_new_answers_are_expected(
    initial: Seq<ResultView>,
    destinations: nat,
    with_source: bool,
    events: Seq<VerifyEventView>,
    seq: nat,
    device: nat,
    answer: HashView,
)
    requires
        possible(VerifyView::start(initial, destinations, with_source), events),
        seq < verifiable(initial).len(),
        device < destinations + offset_of(with_source),
        !has_answered(events, seq, device),
    ensures
        after(VerifyView::start(initial, destinations, with_source), events).expects(
            VerifyEventView::Answer(seq, device, answer),
        ),
{
    lemma_judged_were_answered(initial, destinations, with_source, events);
    let run = after(VerifyView::start(initial, destinations, with_source), events);
    if seq < run.next {
        assert(run.pending[seq as int][device as int] is Some);
    }
}

/// Whether all devices have answered for each file that was judged.
spec fn judged_were_answered(run: VerifyView) -> bool {
    forall|s: int, d: int|
        0 <= s < run.next && 0 <= d < run.devices() ==> (#[trigger] run.pending[s][d]) is Some
}

proof fn lemma_judged_were_answered(
    initial: Seq<ResultView>,
    destinations: nat,
    with_source: bool,
    events: Seq<VerifyEventView>,
)
    requires
        possible(VerifyView::start(initial, destinations, with_source), events),
    ensures
        ({
            let run = after(VerifyView::start(initial, destinations, with_source), events);
            &&& run.wf()
            &&& run.indices == verifiable(initial)
            &&& run.devices() == destinations + offset_of(with_source)
            &&& judged_were_answered(run)
            &&& forall|s: int, d: int|
                0 <= s < run.indices.len() && 0 <= d < run.devices() && (
                #[trigger] run.pending[s][d]) is Some ==> has_answered(events, s as nat, d as nat)
        }),
    decreases events.len(),
{
    let start = VerifyView::start(initial, destinations, with_source);
    if events.len() == 0 {
        lemma_verifiable(initial);
    } else {
        let fewer = events.drop_last();
        let event = events.last();
        let before = after(start, fewer);
        let taken = before.taken(event);
        lemma_judged_were_answered(initial, destinations, with_source, fewer);
        lemma_taken_keeps_wf(before, event);
        assert forall|s: int, d: int|
            0 <= s < taken.indices.len() && 0 <= d < taken.devices() && (
            #[trigger] taken.pending[s][d]) is Some implies has_answered(
            events,
            s as nat,
            d as nat,
        ) by {
            assert(before.pending[s].len() == before.devices());
            if before.pending[s][d] is Some {
                let k = choose|k: int|
                    0 <= k < fewer.len() && (#[trigger] fewer[k] matches VerifyEventView::Answer(
                        a,
                        b,
                        _,
                    ) && a == s && b == d);
                assert(events[k] == fewer[k]);
            } else {
                assert(events[events.len() - 1] == event);
            }
        }
        assert forall|s: int, d: int| 0 <= s < taken.next && 0 <= d < taken.devices() implies (
        #[trigger] taken.pending[s][d]) is Some by {
            assert(before.pending[s].len() == before.devices());
            assert(before.pending[s][d] is Some);
        }
        lemma_drain_keeps_answers(taken);
    }
}

proof fn lemma_drain_keeps_answers(run: VerifyView)
    requires
        run.wf(),
        !run.over,
        !run.aborted,
        judged_were_answered(run),
    ensures
        ({
            let to = run.drained();
            &&& VerifyView { over: to.aborted, ..to }.wf()
            &&& !to.over
            &&& to.pending == run.pending
            &&& to.indices == run.indices
            &&& to.devices() == run.devices()
            &&& judged_were_answered(to)
        }),
    decreases run.indices.len() - run.next,
{
    if run.complete() && !run.interrupted() {
        let to = run.advanced();
        assert(run.pending[run.next as int].len() == run.devices());
        assert forall|s: int, d: int| 0 <= s < to.next && 0 <= d < to.devices() implies (
        #[trigger] to.pending[s][d]) is Some by {
            if s == run.next {
                assert(run.pending[run.next as int][d] is Some);
            }
        }
        lemma_drain_keeps_answers(to);
    }
}

/// All that is reported while a verification goes through these events.
pub open spec fn reported(run: VerifyView, events: Seq<VerifyEventView>) -> Seq<ReportView>
    decreases events.len(),
{
    if events.len() == 0 {
        Seq::empty()
    } else {
        reported(run, events.drop_last()) + after(run, events.drop_last()).reports(events.last())
    }
}

/// Files are reported in their order, one report for each that was judged; where the workers
/// ended too early, the first file that was not judged is reported as well, and no other.
pub proof fn lemma_reports_come_in_order(
    initial: Seq<ResultView>,
    destinations: nat,
    with_source: bool,
    events: Seq<VerifyEventView>,
)
    requires
        possible(VerifyView::start(initial, destinations, with_source), events),
    ensures
        ({
            let start = VerifyView::start(initial, destinations, with_source);
            let run = after(start, events);
            let all = reported(start, events);
            let exited = run.over && !run.aborted && run.next < run.indices.len();
            &&& run.indices == verifiable(initial)
            &&& run.next <= run.indices.len()
            &&& all.len() == run.next + if exited {
                1int
            } else {
                0int
            }
            &&& forall|k: int|
                #![trigger all[k]]
                0 <= k < all.len() ==> {
                    &&& all[k].seq == k
                    &&& all[k].index == verifiable(initial)[k]
                    &&& all[k].outcome is WorkerExited <==> k == run.next
                }
        }),
    decreases events.len(),
{
    let start = VerifyView::start(initial, destinations, with_source);
    if events.len() > 0 {
        let fewer = events.drop_last();
        lemma_reports_come_in_order(initial, destinations, with_source, fewer);
        lemma_not_stopped_at_the_end(start, fewer);
        lemma_drained_reports(after(start, fewer).taken(events.last()));
    }
}

proof fn lemma_drained_reports(run: VerifyView)
    requires
        !run.aborted,
        run.next <= run.indices.len(),
    ensures
        ({
            let to = run.drained();
            let all = run.drained_reports();
            &&& to.indices == run.indices
            &&& to.over == run.over
            &&& run.next <= to.next <= to.indices.len()
            &&& all.len() == to.next - run.next
            &&& forall|k: int|
                #![trigger all[k]]
                0 <= k < all.len() ==> {
                    &&& all[k].seq == run.next + k
                    &&& all[k].index == run.indices[run.next + k]
                    &&& !(all[k].outcome is WorkerExited)
                }
            &&& to.aborted ==> to.next < to.indices.len()
        }),
    decreases run.indices.len() - run.next,
{
    if run.complete() && !run.interrupted() {
        let rest = run.advanced().drained_reports();
        lemma_drained_reports(run.advanced());
        assert forall|k: int|
            #![trigger run.drained_reports()[k]]
            0 <= k < run.drained_reports().len() implies {
            &&& run.drained_reports()[k].seq == run.next + k
            &&& run.drained_reports()[k].index == run.indices[run.next + k]
            &&& !(run.drained_reports()[k].outcome is WorkerExited)
        } by {
            if k > 0 {
                assert(run.drained_reports()[k] == rest[k - 1]);
            }
        }
    }
}

/// Whether all devices found the same hash, the recorded one if there is one.
pub open spec fn agreed(expected: Seq<char>, slots: Seq<HashView>) -> bool {
    exists|hash: Seq<char>| unanimous(expected, slots, hash)
}

/// A verification of files of each of which all devices find the same hash, the one that the
/// copying recorded if it did, is over and has succeeded once all devices have answered for all
/// files, in whatever order.
pub proof fn lemma_unanimous_passes(
    initial: Seq<ResultView>,
    destinations: nat,
    with_source: bool,
    answers: Seq<Seq<HashView>>,
    events: Seq<VerifyEventView>,
)
    requires
        destinations + offset_of(with_source) > 0,
        verifiable(initial).len() > 0,
        is_table(answers, verifiable(initial).len(), destinations + offset_of(with_source)),
        possible(VerifyView::start(initial, destinations, with_source), events),
        all_agree(events, answers),
        forall|s: nat, d: nat|
            s < verifiable(initial).len() && d < destinations + offset_of(with_source)
                ==> #[trigger] has_answered(events, s, d),
        forall|s: int|
            #![trigger answers[s]]
            0 <= s < verifiable(initial).len() ==> agreed(
                initial[verifiable(initial)[s] as int].inflight_hash,
                answers[s],
            ),
    ensures
        ({
            let run = after(VerifyView::start(initial, destinations, with_source), events);
            &&& run.over
            &&& run.passed()
            &&& run.verified == verifiable(initial).len()
        }),
{
    let start = VerifyView::start(initial, destinations, with_source);
    let run = after(start, events);
    let total = verifiable(initial).len();
    assert(has_answered(events, 0, 0));
    assert(events.len() > 0);
    lemma_explained_after(initial, destinations, with_source, answers, events);
    lemma_answered_are_pending(initial, destinations, with_source, events);
    lemma_not_stopped(initial, destinations, with_source, answers, events);
    if run.next < total {
        assert(run.pending[run.next as int].len() == run.devices());
        assert forall|d: int| 0 <= d < run.devices() implies (
        #[trigger] run.pending[run.next as int][d]) is Some by {
            assert(has_answered(events, run.next, d as nat));
        }
        assert(run.complete());
        lemma_drained_is_stuck(after(start, events.drop_last()).taken(events.last()));
    }
    assert(run.next == total);
    assert forall|s: int| 0 <= s < total implies #[trigger] verified_at(
        initial,
        destinations,
        with_source,
        answers,
        s,
    ) by {
        assert(answers[s].len() == destinations + offset_of(with_source));
        assert(agreed(initial[verifiable(initial)[s] as int].inflight_hash, answers[s]));
        lemma_verified_iff_unanimous(
            with_source,
            destinations,
            initial[verifiable(initial)[s] as int].inflight_hash,
            answers[s],
        );
    }
    lemma_all_verified(initial, destinations, with_source, answers, total);
}

/// Files are judged until one cannot be, or was stopped at.
proof fn lemma_drained_is_stuck(run: VerifyView)
    ensures
        !run.drained().complete() || run.drained().aborted,
    decreases run.indices.len() - run.next,
{
    if run.complete() && !run.interrupted() {
        lemma_drained_is_stuck(run.advanced());
    }
}

/// An answer that has come is there.
proof fn lemma_answered_are_pending(
    initial: Seq<ResultView>,
    destinations: nat,
    with_source: bool,
    events: Seq<VerifyEventView>,
)
    requires
        possible(VerifyView::start(initial, destinations, with_source), events),
    ensures
        ({
            let run = after(VerifyView::start(initial, destinations, with_source), events);
            forall|s: nat, d: nat|
                s < run.indices.len() && d < run.devices() && #[trigger] has_answered(events, s, d)
                    ==> run.pending[s as int][d as int] is Some
        }),
    decreases events.len(),
{
    let start = VerifyView::start(initial, destinations, with_source);
    let run = after(start, events);
    if events.len() > 0 {
        let fewer = events.drop_last();
        let event = events.last();
        let before = after(start, fewer);
        let taken = before.taken(event);
        lemma_answered_are_pending(initial, destinations, with_source, fewer);
        lemma_judged_were_answered(initial, destinations, with_source, fewer);
        lemma_not_stopped_at_the_end(start, fewer);
        lemma_taken_keeps_wf(before, event);
        lemma_drain_keeps_pending(taken);
        assert forall|s: nat, d: nat|
            s < run.indices.len() && d < run.devices() && #[trigger] has_answered(
                events,
                s,
                d,
            ) implies run.pending[s as int][d as int] is Some by {
            assert(before.pending[s as int].len() == before.devices());
            let k = choose|k: int|
                0 <= k < events.len() && (#[trigger] events[k] matches VerifyEventView::Answer(
                    a,
                    b,
                    _,
                ) && a == s && b == d);
            if k < fewer.len() {
                assert(fewer[k] == events[k]);
                assert(has_answered(fewer, s, d));
            }
        }
    }
}

proof fn lemma_drain_keeps_pending(run: VerifyView)
    ensures
        run.drained().pending == run.pending,
        run.drained().indices == run.indices,
        run.drained().devices() == run.devices(),
    decreases run.indices.len() - run.next,
{
    if run.complete() && !run.interrupted() {
        lemma_drain_keeps_pending(run.advanced());
    }
}

/// Where all devices find hashes, none was stopped.
proof fn lemma_not_stopped(
    initial: Seq<ResultView>,
    destinations: nat,
    with_source: bool,
    answers: Seq<Seq<HashView>>,
    events: Seq<VerifyEventView>,
)
    requires
        is_table(answers, verifiable(initial).len(), destinations + offset_of(with_source)),
        possible(VerifyView::start(initial, destinations, with_source), events),
        all_agree(events, answers),
        forall|s: int|
            #![trigger answers[s]]
            0 <= s < verifiable(initial).len() ==> agreed(
                initial[verifiable(initial)[s] as int].inflight_hash,
                answers[s],
            ),
    ensures
        !after(VerifyView::start(initial, destinations, with_source), events).aborted,
    decreases events.len(),
{
    let start = VerifyView::start(initial, destinations, with_source);
    let run = after(start, events);
    if events.len() > 0 {
        let fewer = events.drop_last();
        assert forall|k: int| 0 <= k < fewer.len() implies agrees(#[trigger] fewer[k], answers) by {
            assert(fewer[k] == events[k]);
        }
        lemma_not_stopped(initial, destinations, with_source, answers, fewer);
        lemma_explained_after(initial, destinations, with_source, answers, events);
        lemma_stopped_at_an_answer(after(start, fewer).taken(events.last()));
        if run.aborted {
            let s = run.next as int;
            let d = choose|d: int|
                0 <= d < run.row().len() && (#[trigger] run.row()[d]) is Err
                    && run.row()[d]->Err_0.kind == ErrorKind::Interrupted;
            assert(run.pending[s].len() == run.devices());
            assert(run.pending[s][d] is Some);
            assert(run.row()[d] == answers[s][d]);
            let expected = initial[verifiable(initial)[s] as int].inflight_hash;
            assert(agreed(expected, answers[s]));
            let hash = choose|hash: Seq<char>| unanimous(expected, answers[s], hash);
            assert(answers[s].len() == run.devices());
            assert(answers[s][d] == Ok::<Seq<char>, IoErrorView>(hash));
        }
    }
}

/// A verification that stops does so at a file for which a device says that it was stopped.
proof fn lemma_stopped_at_an_answer(run: VerifyView)
    requires
        !run.aborted,
    ensures
        run.drained().aborted ==> run.drained().complete() && run.drained().interrupted(),
    decreases run.indices.len() - run.next,
{
    if run.complete() && !run.interrupted() {
        lemma_stopped_at_an_answer(run.advanced());
    }
}

proof fn lemma_same_verifiable(a: Seq<ResultView>, b: Seq<ResultView>)
    requires
        a.len() == b.len(),
        forall|i: int| 0 <= i < a.len() ==> (#[trigger] a[i]).success == b[i].success,
    ensures
        verifiable(a) == verifiable(b),
    decreases a.len(),
{
    if a.len() > 0 {
        assert(a[a.len() - 1].success == b[b.len() - 1].success);
        assert forall|i: int| 0 <= i < a.drop_last().len() implies (
        #[trigger] a.drop_last()[i]).success == b.drop_last()[i].success by {
            assert(a[i].success == b[i].success);
        }
        lemma_same_verifiable(a.drop_last(), b.drop_last());
    }
}

/// A second verification of the results of one that has succeeded succeeds too, and leaves the
/// results as they are, if the devices find what they found before.
pub proof fn lemma_second_verification_passes(
    initial: Seq<ResultView>,
    destinations: nat,
    with_source: bool,
    answers: Seq<Seq<HashView>>,
    first: Seq<VerifyEventView>,
    second: Seq<VerifyEventView>,
)
    requires
        destinations + offset_of(with_source) > 0,
        verifiable(initial).len() > 0,
        is_table(answers, verifiable(initial).len(), destinations + offset_of(with_source)),
        possible(VerifyView::start(initial, destinations, with_source), first),
        all_agree(first, answers),
        ({
            let run = after(VerifyView::start(initial, destinations, with_source), first);
            &&& run.over
            &&& run.passed()
            &&& possible(VerifyView::start(run.results, destinations, with_source), second)
        }),
        all_agree(second, answers),
        forall|s: nat, d: nat|
            s < verifiable(initial).len() && d < destinations + offset_of(with_source)
                ==> #[trigger] has_answered(second, s, d),
    ensures
        ({
            let run = after(VerifyView::start(initial, destinations, with_source), first);
            let again = after(VerifyView::start(run.results, destinations, with_source), second);
            &&& again.over
            &&& again.passed()
            &&& again.results == run.results
        }),
{
    let run = after(VerifyView::start(initial, destinations, with_source), first);
    let kept = run.results;
    let again = after(VerifyView::start(kept, destinations, with_source), second);
    lemma_explained_after(initial, destinations, with_source, answers, first);
    lemma_passed_is_unanimous(initial, destinations, with_source, answers, first);
    assert forall|i: int| 0 <= i < initial.len() implies (#[trigger] initial[i]).success
        == kept[i].success by {
        lemma_only_missing_hashes_are_filled(
            initial,
            destinations,
            with_source,
            answers,
            first,
            i,
        );
    }
    lemma_same_verifiable(initial, kept);
    let places = verifiable(initial);
    assert forall|s: int| #![trigger answers[s]] 0 <= s < places.len() implies unanimous(
        kept[places[s] as int].inflight_hash,
        answers[s],
        kept[places[s] as int].inflight_hash,
    ) by {
        assert(unanimous(
            initial[places[s] as int].inflight_hash,
            answers[s],
            kept[places[s] as int].inflight_hash,
        ));
    }
    lemma_unanimous_passes(kept, destinations, with_source, answers, second);
    lemma_passed_is_unanimous(kept, destinations, with_source, answers, second);
    lemma_explained_after(kept, destinations, with_source, answers, second);
    lemma_verifiable(kept);
    assert forall|i: int| 0 <= i < kept.len() implies again.results[i] == kept[i] by {
        lemma_only_missing_hashes_are_filled(
            kept,
            destinations,
            with_source,
            answers,
            second,
            i,
        );
        if kept[i].success {
            assert(verifiable(kept).contains(i as nat));
            let s = choose|s: int| 0 <= s < places.len() && places[s] == i as nat;
            assert(answers[s].len() == destinations + offset_of(with_source));
            assert(unanimous(kept[i].inflight_hash, answers[s], kept[i].inflight_hash));
            assert(unanimous(kept[i].inflight_hash, answers[s], again.results[i].inflight_hash));
            assert(answers[s][0] == Ok::<Seq<char>, IoErrorView>(kept[i].inflight_hash));
        }
    }
    assert(again.results =~= kept);
}

/// What a device found at a file that a successful verification looked at has the digest of
/// what was copied, where the copying recorded the hash of `source` and the answer of the
/// device is the hash of `found`.
pub proof fn lemma_passed_means_same_digest(
    initial: Seq<ResultView>,
    destinations: nat,
    with_source: bool,
    answers: Seq<Seq<HashView>>,
    events: Seq<VerifyEventView>,
    s: int,
    d: int,
    source: Seq<u8>,
    found: Seq<u8>,
)
    requires
        is_table(answers, verifiable(initial).len(), destinations + offset_of(with_source)),
        possible(VerifyView::start(initial, destinations, with_source), events),
        all_agree(events, answers),
        ({
            let run = after(VerifyView::start(initial, destinations, with_source), events);
            run.over && run.passed()
        }),
        0 <= s < verifiable(initial).len(),
        0 <= d < destinations + offset_of(with_source),
        initial[verifiable(initial)[s] as int].inflight_hash == hash_text(source),
        answers[s][d] == Ok::<Seq<char>, IoErrorView>(hash_text(found)),
    ensures
        xxh3_digest(found) == xxh3_digest(source),
{
    lemma_passed_is_unanimous(initial, destinations, with_source, answers, events);
    lemma_hex16_faithful(xxh3_digest(found), xxh3_digest(source));
    lemma_hex_digits_len(xxh3_digest(source) as nat, 16);
    assert(answers[s].len() == destinations + offset_of(with_source));
    let run = after(VerifyView::start(initial, destinations, with_source), events);
    let hash = run.results[verifiable(initial)[s] as int].inflight_hash;
    assert(unanimous(initial[verifiable(initial)[s] as int].inflight_hash, answers[s], hash));
    assert(answers[s][d] == Ok::<Seq<char>, IoErrorView>(hash));
}

/// After a successful verification no result but the failed ones lacks a hash, as long as no
/// device answers with an empty one.
pub proof fn lemma_passed_leaves_no_hash_missing(
    initial: Seq<ResultView>,
    destinations: nat,
    with_source: bool,
    answers: Seq<Seq<HashView>>,
    events: Seq<VerifyEventView>,
    i: int,
)
    requires
        destinations + offset_of(with_source) > 0,
        is_table(answers, verifiable(initial).len(), destinations + offset_of(with_source)),
        possible(VerifyView::start(initial, destinations, with_source), events),
        all_agree(events, answers),
        ({
            let run = after(VerifyView::start(initial, destinations, with_source), events);
            run.over && run.passed()
        }),
        forall|s: int, d: int|
            0 <= s < verifiable(initial).len() && 0 <= d < destinations + offset_of(with_source)
                ==> (#[trigger] answers[s][d] matches Ok(hash) ==> hash.len() > 0),
        0 <= i < initial.len(),
        initial[i].success,
    ensures
        after(
            VerifyView::start(initial, destinations, with_source),
            events,
        ).results[i].inflight_hash.len() > 0,
{
    lemma_passed_is_unanimous(initial, destinations, with_source, answers, events);
    lemma_verifiable(initial);
    assert(verifiable(initial).contains(i as nat));
    let s = choose|s: int|
        0 <= s < verifiable(initial).len() && verifiable(initial)[s] == i as nat;
    let run = after(VerifyView::start(initial, destinations, with_source), events);
    let hash = run.results[i].inflight_hash;
    assert(unanimous(initial[i].inflight_hash, answers[s], hash));
    assert(answers[s].len() == destinations + offset_of(with_source));
    assert(answers[s][0] == Ok::<Seq<char>, IoErrorView>(hash));
}

/// What is reported after an event names only destinations that there are.
pub proof fn lemma_reports_name_destinations(run: VerifyView, event: VerifyEventView)
    requires
        run.wf(),
        !run.over,
        run.expects(event),
    ensures
        forall|k: int|
            0 <= k < run.reports(event).len() ==> outcome_known(
                (#[trigger] run.reports(event)[k]).outcome,
                run.destinations,
            ),
{
    lemma_taken_keeps_wf(run, event);
    lemma_drained_reports_known(run.taken(event));
}

proof fn lemma_drained_reports_known(run: VerifyView)
    requires
        run.wf(),
        !run.over,
    ensures
        forall|k: int|
            0 <= k < run.drained_reports().len() ==> outcome_known(
                (#[trigger] run.drained_reports()[k]).outcome,
                run.destinations,
            ),
    decreases run.indices.len() - run.next,
{
    if run.complete() && !run.interrupted() {
        lemma_drained_reports_known(run.advanced());
        assert(run.pending[run.next as int].len() == run.devices());
        lemma_failures_name_destinations(
            run.with_source,
            run.destinations,
            run.results[run.indices[run.next as int] as int].inflight_hash,
            run.row(),
        );
        assert forall|k: int| 0 <= k < run.drained_reports().len() implies outcome_known(
            (#[trigger] run.drained_reports()[k]).outcome,
            run.destinations,
        ) by {
            if k > 0 {
                assert(run.drained_reports()[k] == run.advanced().drained_reports()[k - 1]);
            }
        }
    }
}

proof fn lemma_failures_name_destinations(
    with_source: bool,
    destinations: nat,
    expected: Seq<char>,
    slots: Seq<HashView>,
)
    requires
        slots.len() == destinations + offset_of(with_source),
    ensures
        ({
            let failures = judged(with_source, destinations, expected, slots).failures;
            forall|k: int|
                0 <= k < failures.len() ==> names_known(#[trigger] failures[k], destinations)
        }),
{
    let reference = reference_of(with_source, expected, slots);
    let target = reference_target(with_source, expected, slots);
    lemma_first_hash(slots, 0);
    lemma_targets_name_destinations(
        slots,
        offset_of(with_source),
        destinations,
        reference,
        target,
        destinations,
    );
}

proof fn lemma_targets_name_destinations(
    slots: Seq<HashView>,
    offset: nat,
    n: nat,
    reference: Option<Seq<char>>,
    target: Option<nat>,
    destinations: nat,
)
    requires
        n <= destinations,
        target matches Some(p) ==> p < destinations,
    ensures
        ({
            let failures = targets_failures(slots, offset, n, reference, target);
            forall|k: int|
                0 <= k < failures.len() ==> names_known(#[trigger] failures[k], destinations)
        }),
    decreases n,
{
    if n > 0 {
        let less = (n - 1) as nat;
        let before = targets_failures(slots, offset, less, reference, target);
        let last = target_failures(slots[(offset + less) as int], less, reference, target);
        let all = targets_failures(slots, offset, n, reference, target);
        lemma_targets_name_destinations(slots, offset, less, reference, target, destinations);
        assert forall|k: int| 0 <= k < all.len() implies names_known(
            #[trigger] all[k],
            destinations,
        ) by {
            if k < before.len() {
                assert(all[k] == before[k]);
            } else {
                assert(all[k] == last[k - before.len()]);
            }
        }
    }
}

/// What is reported of the `k`-th file by the answers in the table.
spec fn report_for(
    initial: Seq<ResultView>,
    destinations: nat,
    with_source: bool,
    answers: Seq<Seq<HashView>>,
    k: int,
) -> ReportView {
    let verdict = verdict_at(initial, destinations, with_source, answers, k);
    let index = verifiable(initial)[k];
    ReportView {
        seq: k as nat,
        index,
        outcome: if verdict.failures.len() == 0 {
            OutcomeView::Verified(filled(initial[index as int], verdict).inflight_hash)
        } else {
            OutcomeView::Failed(verdict.failures)
        },
    }
}

proof fn lemma_drained_reports_explained(
    run: VerifyView,
    initial: Seq<ResultView>,
    answers: Seq<Seq<HashView>>,
)
    requires
        run.wf(),
        !run.over,
        !run.aborted,
        explained(run, initial, answers),
    ensures
        forall|k: int|
            #![trigger run.drained_reports()[k]]
            0 <= k < run.drained_reports().len() ==> run.drained_reports()[k] == report_for(
                initial,
                run.destinations,
                run.with_source,
                answers,
                run.next + k,
            ),
    decreases run.indices.len() - run.next,
{
    if run.complete() && !run.interrupted() {
        let next = run.next as int;
        let to = run.advanced();
        let rest = to.drained_reports();
        lemma_explained_advance(run, initial, answers);
        lemma_drained_reports_explained(to, initial, answers);
        assert(run.pending[next].len() == run.devices());
        assert(answers[next].len() == run.devices());
        assert forall|d: int| 0 <= d < run.devices() implies run.row()[d] == answers[next][d] by {
            assert(run.pending[next][d] is Some);
        }
        assert(run.row() =~= answers[next]);
        assert(to.results[run.indices[next] as int] == filled(
            initial[run.indices[next] as int],
            run.verdict(),
        ));
        assert forall|k: int|
            #![trigger run.drained_reports()[k]]
            0 <= k < run.drained_reports().len() implies run.drained_reports()[k] == report_for(
            initial,
            run.destinations,
            run.with_source,
            answers,
            run.next + k,
        ) by {
            if k > 0 {
                assert(run.drained_reports()[k] == rest[k - 1]);
            }
        }
    }
}

proof fn lemma_reports_explained(
    initial: Seq<ResultView>,
    destinations: nat,
    with_source: bool,
    answers: Seq<Seq<HashView>>,
    events: Seq<VerifyEventView>,
)
    requires
        is_table(answers, verifiable(initial).len(), destinations + offset_of(with_source)),
        possible(VerifyView::start(initial, destinations, with_source), events),
        all_agree(events, answers),
    ensures
        ({
            let start = VerifyView::start(initial, destinations, with_source);
            let run = after(start, events);
            let all = reported(start, events);
            forall|k: int|
                #![trigger all[k]]
                0 <= k < run.next ==> all[k] == report_for(
                    initial,
                    destinations,
                    with_source,
                    answers,
                    k,
                )
        }),
    decreases events.len(),
{
    let start = VerifyView::start(initial, destinations, with_source);
    if events.len() > 0 {
        let fewer = events.drop_last();
        let event = events.last();
        let before = after(start, fewer);
        let taken = before.taken(event);
        let run = after(start, events);
        let all = reported(start, events);
        let old_ones = reported(start, fewer);
        assert forall|k: int| 0 <= k < fewer.len() implies agrees(#[trigger] fewer[k], answers) by {
            assert(fewer[k] == events[k]);
        }
        assert(event == events[events.len() - 1]);
        lemma_reports_explained(initial, destinations, with_source, answers, fewer);
        lemma_reports_come_in_order(initial, destinations, with_source, fewer);
        lemma_reports_come_in_order(initial, destinations, with_source, events);
        lemma_explained_after(initial, destinations, with_source, answers, fewer);
        lemma_explained_taken(before, initial, answers, event);
        lemma_drained_reports_explained(taken, initial, answers);
        lemma_drained_reports(taken);
        assert forall|k: int| #![trigger all[k]] 0 <= k < run.next implies all[k] == report_for(
            initial,
            destinations,
            with_source,
            answers,
            k,
        ) by {
            if k < old_ones.len() {
                assert(all[k] == old_ones[k]);
            } else {
                let m = k - old_ones.len();
                assert(all[k] == before.reports(event)[m]);
                assert(before.reports(event)[m] == taken.drained_reports()[m]);
            }
        }
    }
}

proof fn lemma_count_of_verified(
    reports: Seq<ReportView>,
    initial: Seq<ResultView>,
    destinations: nat,
    with_source: bool,
    answers: Seq<Seq<HashView>>,
    n: nat,
)
    requires
        n <= reports.len(),
        forall|k: int|
            #![trigger reports[k]]
            0 <= k < reports.len() ==> (reports[k].outcome is Verified <==> k < n && verified_at(
                initial,
                destinations,
                with_source,
                answers,
                k,
            )),
    ensures
        reports.filter(|report: ReportView| report.outcome is Verified).len() == verified_among(
            initial,
            destinations,
            with_source,
            answers,
            n,
        ),
    decreases reports.len(),
{
    reveal(Seq::filter);
    if reports.len() > 0 {
        let fewer = reports.drop_last();
        let m = if n == reports.len() {
            (n - 1) as nat
        } else {
            n
        };
        assert forall|k: int| #![trigger fewer[k]] 0 <= k < fewer.len() implies (
        fewer[k].outcome is Verified <==> k < m && verified_at(
            initial,
            destinations,
            with_source,
            answers,
            k,
        )) by {
            assert(fewer[k] == reports[k]);
        }
        lemma_count_of_verified(fewer, initial, destinations, with_source, answers, m);
        assert(reports.last() == reports[reports.len() - 1]);
    }
}

/// In every course of events, the report of a file says that it is verified, with this hash,
/// exactly if the file was judged and all devices found one and the same hash for it, this one,
/// which is also the recorded one if there is one. It says that the file failed, with at least
/// one failure, exactly if it was judged and that is not so. The reports of verified files are as
/// many as are counted as verified. The hash of a verified file is the one that its result holds,
/// and the results of all other files are as they were.
pub proof fn lemma_reports_tell_the_truth(
    initial: Seq<ResultView>,
    destinations: nat,
    with_source: bool,
    answers: Seq<Seq<HashView>>,
    events: Seq<VerifyEventView>,
)
    requires
        destinations + offset_of(with_source) > 0,
        is_table(answers, verifiable(initial).len(), destinations + offset_of(with_source)),
        possible(VerifyView::start(initial, destinations, with_source), events),
        all_agree(events, answers),
    ensures
        ({
            let start = VerifyView::start(initial, destinations, with_source);
            let run = after(start, events);
            let all = reported(start, events);
            &&& all.len() >= run.next
            &&& forall|k: int|
                #![trigger all[k]]
                0 <= k < all.len() ==> {
                    let before = initial[verifiable(initial)[k] as int];
                    let now = run.results[verifiable(initial)[k] as int];
                    let found = answers[k][0] is Ok && (forall|d: int|
                        0 <= d < answers[k].len() ==> #[trigger] answers[k][d] == answers[k][0])
                        && (before.inflight_hash.len() > 0 ==> answers[k][0]->Ok_0
                        == before.inflight_hash);
                    &&& all[k].outcome is Verified <==> k < run.next && found
                    &&& all[k].outcome is Failed <==> k < run.next && !found
                    &&& all[k].outcome matches OutcomeView::Verified(hash) ==> {
                        &&& forall|d: int|
                            0 <= d < answers[k].len() ==> #[trigger] answers[k][d] == Ok::<
                                Seq<char>,
                                IoErrorView,
                            >(hash)
                        &&& before.inflight_hash.len() > 0 ==> before.inflight_hash == hash
                        &&& now == ResultView { inflight_hash: hash, ..before }
                    }
                    &&& all[k].outcome matches OutcomeView::Failed(failures) ==> {
                        &&& failures.len() > 0
                        &&& failures == judged(
                            with_source,
                            destinations,
                            before.inflight_hash,
                            answers[k],
                        ).failures
                        &&& now == before
                    }
                }
            &&& all.filter(|report: ReportView| report.outcome is Verified).len() == run.verified
        }),
{
    let start = VerifyView::start(initial, destinations, with_source);
    let run = after(start, events);
    let all = reported(start, events);
    lemma_reports_explained(initial, destinations, with_source, answers, events);
    lemma_reports_come_in_order(initial, destinations, with_source, events);
    lemma_explained_after(initial, destinations, with_source, answers, events);
    assert forall|k: int| #![trigger all[k]] 0 <= k < all.len() implies {
        let before = initial[verifiable(initial)[k] as int];
        let now = run.results[verifiable(initial)[k] as int];
        let found = answers[k][0] is Ok && (forall|d: int|
                        0 <= d < answers[k].len() ==> #[trigger] answers[k][d] == answers[k][0])
                        && (before.inflight_hash.len() > 0 ==> answers[k][0]->Ok_0
                        == before.inflight_hash);
        &&& all[k].outcome is Verified <==> k < run.next && found
        &&& all[k].outcome is Failed <==> k < run.next && !found
        &&& all[k].outcome is Verified <==> k < run.next && verified_at(
            initial,
            destinations,
            with_source,
            answers,
            k,
        )
        &&& all[k].outcome matches OutcomeView::Verified(hash) ==> {
            &&& forall|d: int|
                0 <= d < answers[k].len() ==> #[trigger] answers[k][d] == Ok::<
                    Seq<char>,
                    IoErrorView,
                >(hash)
            &&& before.inflight_hash.len() > 0 ==> before.inflight_hash == hash
            &&& now == ResultView { inflight_hash: hash, ..before }
        }
        &&& all[k].outcome matches OutcomeView::Failed(failures) ==> {
            &&& failures.len() > 0
            &&& failures == judged(
                with_source,
                destinations,
                before.inflight_hash,
                answers[k],
            ).failures
            &&& now == before
        }
    } by {
        if k < run.next {
            let before = initial[verifiable(initial)[k] as int];
            assert(answers[k].len() == destinations + offset_of(with_source));
            lemma_verified_iff_unanimous(
                with_source,
                destinations,
                before.inflight_hash,
                answers[k],
            );
            assert(run.results[run.indices[k] as int] == filled(
                before,
                verdict_at(initial, destinations, with_source, answers, k),
            ));
            assert(all[k] == report_for(initial, destinations, with_source, answers, k));
            if answers[k][0] is Ok && (forall|d: int|
                0 <= d < answers[k].len() ==> #[trigger] answers[k][d] == answers[k][0]) && (
            before.inflight_hash.len() > 0 ==> answers[k][0]->Ok_0 == before.inflight_hash) {
                assert(unanimous(before.inflight_hash, answers[k], answers[k][0]->Ok_0));
            }
        }
    }
    lemma_count_of_verified(all, initial, destinations, with_source, answers, run.next);
}

proof fn lemma_pending_agrees(
    initial: Seq<ResultView>,
    destinations: nat,
    with_source: bool,
    answers: Seq<Seq<HashView>>,
    events: Seq<VerifyEventView>,
)
    requires
        is_table(answers, verifiable(initial).len(), destinations + offset_of(with_source)),
        possible(VerifyView::start(initial, destinations, with_source), events),
        all_agree(events, answers),
    ensures
        ({
            let run = after(VerifyView::start(initial, destinations, with_source), events);
            &&& forall|s: int, d: int|
                0 <= s < run.indices.len() && 0 <= d < run.devices() && (
                #[trigger] run.pending[s][d]) is Some ==> run.pending[s][d]->0 == answers[s][d]
            &&& forall|s: int, d: int|
                0 <= s < run.next && 0 <= d < run.devices() ==> !stopped(#[trigger] answers[s][d])
            &&& run.aborted ==> run.over && run.next < run.indices.len() && exists|d: int|
                0 <= d < run.devices() && stopped(#[trigger] answers[run.next as int][d])
        }),
    decreases events.len(),
{
    let start = VerifyView::start(initial, destinations, with_source);
    let run = after(start, events);
    if events.len() > 0 {
        let fewer = events.drop_last();
        let event = events.last();
        let before = after(start, fewer);
        let taken = before.taken(event);
        assert forall|k: int| 0 <= k < fewer.len() implies agrees(#[trigger] fewer[k], answers) by {
            assert(fewer[k] == events[k]);
        }
        assert(event == events[events.len() - 1]);
        lemma_pending_agrees(initial, destinations, with_source, answers, fewer);
        lemma_explained_after(initial, destinations, with_source, answers, fewer);
        lemma_explained_after(initial, destinations, with_source, answers, events);
        lemma_taken_keeps_wf(before, event);
        assert forall|s: int, d: int|
            0 <= s < taken.indices.len() && 0 <= d < taken.devices() && (
            #[trigger] taken.pending[s][d]) is Some implies taken.pending[s][d]->0
            == answers[s][d] by {
            assert(before.pending[s].len() == before.devices());
            if taken.pending[s][d] != before.pending[s][d] {
                assert(event is Answer);
            } else {
                assert(before.pending[s][d] is Some);
            }
        }
        lemma_drain_passes_no_stop(taken, answers);
    }
}

/// Whether an answer says that its device was stopped.
pub open spec fn stopped(answer: HashView) -> bool {
    answer is Err && answer->Err_0.kind == ErrorKind::Interrupted
}

proof fn lemma_drain_passes_no_stop(run: VerifyView, answers: Seq<Seq<HashView>>)
    requires
        run.wf(),
        !run.over,
        !run.aborted,
        forall|s: int, d: int|
            0 <= s < run.indices.len() && 0 <= d < run.devices() && (
            #[trigger] run.pending[s][d]) is Some ==> run.pending[s][d]->0 == answers[s][d],
        forall|s: int, d: int|
            0 <= s < run.next && 0 <= d < run.devices() ==> !stopped(#[trigger] answers[s][d]),
    ensures
        ({
            let to = run.drained();
            &&& to.pending == run.pending
            &&& to.indices == run.indices
            &&& to.devices() == run.devices()
            &&& !to.over
            &&& forall|s: int, d: int|
                0 <= s < to.next && 0 <= d < to.devices() ==> !stopped(#[trigger] answers[s][d])
            &&& to.aborted ==> to.next < to.indices.len() && exists|d: int|
                0 <= d < to.devices() && stopped(#[trigger] answers[to.next as int][d])
        }),
    decreases run.indices.len() - run.next,
{
    if run.complete() {
        let next = run.next as int;
        assert(run.pending[next].len() == run.devices());
        assert forall|d: int| 0 <= d < run.devices() implies run.row()[d] == answers[next][d] by {
            assert(run.pending[next][d] is Some);
        }
        if run.interrupted() {
            let d = choose|d: int|
                0 <= d < run.row().len() && (#[trigger] run.row()[d]) is Err
                    && run.row()[d]->Err_0.kind == ErrorKind::Interrupted;
            assert(run.row().len() == run.devices());
            assert(run.row()[d] == answers[next][d]);
            assert(run.drained() == VerifyView { aborted: true, ..run });
            assert(stopped(answers[run.drained().next as int][d]));
        } else {
            let to = run.advanced();
            assert(run.row().len() == run.devices());
            assert(run.drained() == to.drained());
            assert forall|s: int, d: int|
                0 <= s < to.next && 0 <= d < to.devices() implies !stopped(
                #[trigger] answers[s][d],
            ) by {
                if s == next {
                    assert(run.row()[d] == answers[next][d]);
                }
            }
            lemma_drain_passes_no_stop(to, answers);
        }
    }
}

/// Why a verification goes on or ends. One that was stopped ends without success, at a file of
/// which a device says that it was stopped, and no file before was such. One that goes on waits
/// for a device to answer for the next file. One that ends before all files were judged, and was
/// not stopped, does so because no answer can come any more while one is missing, and fails.
pub proof fn lemma_why_a_verification_ends(
    initial: Seq<ResultView>,
    destinations: nat,
    with_source: bool,
    answers: Seq<Seq<HashView>>,
    events: Seq<VerifyEventView>,
)
    requires
        is_table(answers, verifiable(initial).len(), destinations + offset_of(with_source)),
        events.len() > 0,
        possible(VerifyView::start(initial, destinations, with_source), events),
        all_agree(events, answers),
    ensures
        ({
            let run = after(VerifyView::start(initial, destinations, with_source), events);
            let devices = destinations + offset_of(with_source);
            &&& forall|s: int, d: int|
                0 <= s < run.next && 0 <= d < devices ==> !stopped(#[trigger] answers[s][d])
            &&& run.aborted ==> run.over && !run.passed() && run.next < verifiable(initial).len()
                && exists|d: int|
                0 <= d < devices && stopped(#[trigger] answers[run.next as int][d])
            &&& !run.over ==> run.next < verifiable(initial).len() && exists|d: nat|
                d < devices && !(#[trigger] has_answered(events, run.next, d))
            &&& run.over && !run.aborted && run.next < verifiable(initial).len() ==> {
                &&& events.last() is Disconnected
                &&& !run.passed()
                &&& exists|d: nat|
                    d < devices && !(#[trigger] has_answered(events, run.next, d))
            }
        }),
{
    let start = VerifyView::start(initial, destinations, with_source);
    let run = after(start, events);
    let before = after(start, events.drop_last());
    let taken = before.taken(events.last());
    lemma_pending_agrees(initial, destinations, with_source, answers, events);
    lemma_explained_after(initial, destinations, with_source, answers, events);
    lemma_answered_are_pending(initial, destinations, with_source, events);
    lemma_drained_is_stuck(taken);
    lemma_judged_were_answered(initial, destinations, with_source, events.drop_last());
    lemma_taken_keeps_wf(before, events.last());
    lemma_drain_keeps_pending(taken);
    lemma_drain_keeps_answers(taken);
    if !run.aborted && run.next < verifiable(initial).len() {
        assert(!run.complete());
        let row = run.pending[run.next as int];
        assert(row.len() == run.devices());
        let d = choose|d: int| 0 <= d < row.len() && !((#[trigger] row[d]) is Some);
        if has_answered(events, run.next, d as nat) {
            assert(run.pending[run.next as int][d] is Some);
        }
        assert(!has_answered(events, run.next, d as nat));
    }
}

} // verus!
