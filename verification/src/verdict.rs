//! Judging one file by the hashes that the devices found.
use vstd::prelude::*;
use vstd::string::*;

use crate::failure::{ErrorKind, IoError, IoErrorView};

verus! {

/// The model of a hash, or of what kept a device from finding it.
pub type HashView = Result<Seq<char>, IoErrorView>;

/// The model of a device's answer.
pub open spec fn hash_view(answer: Result<String, IoError>) -> HashView {
    match answer {
        Ok(hash) => Ok(hash@),
        Err(error) => Err(error@),
    }
}

/// The models of a list of answers.
pub open spec fn hash_views(answers: Seq<Result<String, IoError>>) -> Seq<HashView> {
    answers.map_values(|answer: Result<String, IoError>| hash_view(answer))
}

/// The model of a hash that may be missing.
pub open spec fn text_of(hash: Option<String>) -> Option<Seq<char>> {
    match hash {
        Some(text) => Some(text@),
        None => None,
    }
}

/// The model of a place in a list that may be missing.
spec fn place_of(place: Option<usize>) -> Option<nat> {
    match place {
        Some(p) => Some(p as nat),
        None => None,
    }
}

/// What is wrong with a file.
#[derive(Debug)]
pub enum FileFailure {
    /// The source has another hash than what was copied: the hash found, and that of the copy.
    SourceChanged(String, String),
    SourceRead(IoError),
    /// Two destinations differ and neither is known to be right: the one and its hash, then
    /// the other and its hash.
    TargetsDisagree(usize, String, usize, String),
    /// A destination has a wrong hash: which one, its hash, and the right one.
    HashMismatch(usize, String, String),
    DestRead(IoError),
}

/// The model of a `FileFailure`.
pub enum FailureView {
    SourceChanged(Seq<char>, Seq<char>),
    SourceRead(IoErrorView),
    TargetsDisagree(nat, Seq<char>, nat, Seq<char>),
    HashMismatch(nat, Seq<char>, Seq<char>),
    DestRead(IoErrorView),
}

impl View for FileFailure {
    type V = FailureView;

    open spec fn view(&self) -> FailureView {
        match self {
            FileFailure::SourceChanged(found, expected) => FailureView::SourceChanged(
                found@,
                expected@,
            ),
            FileFailure::SourceRead(error) => FailureView::SourceRead(error@),
            FileFailure::TargetsDisagree(j, hash, p, other) => FailureView::TargetsDisagree(
                *j as nat,
                hash@,
                *p as nat,
                other@,
            ),
            FileFailure::HashMismatch(j, hash, expected) => FailureView::HashMismatch(
                *j as nat,
                hash@,
                expected@,
            ),
            FileFailure::DestRead(error) => FailureView::DestRead(error@),
        }
    }
}

/// The models of a list of failures.
pub open spec fn failure_views(failures: Seq<FileFailure>) -> Seq<FailureView> {
    failures.map_values(|failure: FileFailure| failure@)
}

/// What the answers of all devices say of a file: the hash that they were held against, and
/// what is wrong. The file is verified if nothing is.
#[derive(Debug)]
pub struct FileVerdict {
    pub reference: Option<String>,
    pub failures: Vec<FileFailure>,
}

/// The model of a `FileVerdict`.
pub struct VerdictView {
    pub reference: Option<Seq<char>>,
    pub failures: Seq<FailureView>,
}

impl View for FileVerdict {
    type V = VerdictView;

    open spec fn view(&self) -> VerdictView {
        VerdictView {
            reference: text_of(self.reference),
            failures: failure_views(self.failures@),
        }
    }
}

/// The first device from the `i`-th on that answered with a hash.
pub open spec fn first_hash(slots: Seq<HashView>, i: nat) -> Option<nat>
    decreases slots.len() - i,
{
    if i >= slots.len() {
        None
    } else if slots[i as int] is Ok {
        Some(i)
    } else {
        first_hash(slots, i + 1)
    }
}

/// The destination that the hash to hold the others against is taken from, where nothing
/// better is known: there is no source among the devices and no hash from the copying.
pub open spec fn reference_target(
    with_source: bool,
    expected: Seq<char>,
    slots: Seq<HashView>,
) -> Option<nat> {
    if with_source || expected.len() > 0 {
        None
    } else {
        first_hash(slots, 0)
    }
}

/// The hash to hold the destinations against: that of the source if it is among the devices,
/// else that of the copying, else that of the first destination that could be read.
pub open spec fn reference_of(
    with_source: bool,
    expected: Seq<char>,
    slots: Seq<HashView>,
) -> Option<Seq<char>> {
    if with_source {
        match slots[0] {
            Ok(hash) => Some(hash),
            Err(_) => None,
        }
    } else if expected.len() > 0 {
        Some(expected)
    } else {
        match first_hash(slots, 0) {
            Some(p) => Some(slots[p as int]->Ok_0),
            None => None,
        }
    }
}

/// What is wrong with the source.
pub open spec fn source_failures(
    with_source: bool,
    expected: Seq<char>,
    slots: Seq<HashView>,
) -> Seq<FailureView> {
    if with_source {
        match slots[0] {
            Ok(hash) => if expected.len() > 0 && hash != expected {
                seq![FailureView::SourceChanged(hash, expected)]
            } else {
                Seq::empty()
            },
            Err(error) => seq![FailureView::SourceRead(error)],
        }
    } else {
        Seq::empty()
    }
}

/// What is wrong with the `j`-th destination, whose answer is `slot`.
pub open spec fn target_failures(
    slot: HashView,
    j: nat,
    reference: Option<Seq<char>>,
    target: Option<nat>,
) -> Seq<FailureView> {
    match slot {
        Ok(hash) => match reference {
            Some(expected) => if hash == expected {
                Seq::empty()
            } else {
                match target {
                    Some(p) => seq![FailureView::TargetsDisagree(j, hash, p, expected)],
                    None => seq![FailureView::HashMismatch(j, hash, expected)],
                }
            },
            None => Seq::empty(),
        },
        Err(error) => seq![FailureView::DestRead(error)],
    }
}

/// What is wrong with the first `n` destinations, whose answers start at `offset`.
pub open spec fn targets_failures(
    slots: Seq<HashView>,
    offset: nat,
    n: nat,
    reference: Option<Seq<char>>,
    target: Option<nat>,
) -> Seq<FailureView>
    decreases n,
{
    if n == 0 {
        Seq::empty()
    } else {
        let j = (n - 1) as nat;
        targets_failures(slots, offset, j, reference, target) + target_failures(
            slots[(offset + j) as int],
            j,
            reference,
            target,
        )
    }
}

/// How many devices come before the destinations.
pub open spec fn offset_of(with_source: bool) -> nat {
    if with_source {
        1
    } else {
        0
    }
}

/// What the answers of all devices say of a file of whose copying the hash `expected` is
/// known, or none if that is empty.
pub open spec fn judged(
    with_source: bool,
    destinations: nat,
    expected: Seq<char>,
    slots: Seq<HashView>,
) -> VerdictView {
    let reference = reference_of(with_source, expected, slots);
    let target = reference_target(with_source, expected, slots);
    VerdictView {
        reference,
        failures: source_failures(with_source, expected, slots) + targets_failures(
            slots,
            offset_of(with_source),
            destinations,
            reference,
            target,
        ),
    }
}

fn push_failure(failures: &mut Vec<FileFailure>, failure: FileFailure)
    ensures
        failure_views(final(failures)@) == failure_views(old(failures)@) + seq![failure@],
{
    failures.push(failure);
    assert(failure_views(failures@) =~= failure_views(old(failures)@) + seq![failure@]);
}

/// Judges a file by the answers of all devices: the source first, if it is among them, then
/// the destinations in their order.
pub fn judge_file(
    with_source: bool,
    destinations: usize,
    expected: &String,
    slots: &Vec<Result<String, IoError>>,
) -> (verdict: FileVerdict)
    requires
        slots@.len() == destinations + offset_of(with_source),
    ensures
        verdict@ == judged(with_source, destinations as nat, expected@, hash_views(slots@)),
        forall|k: int|
            #![trigger verdict.failures@[k]]
            0 <= k < verdict.failures@.len() ==> truthful(
                verdict.failures@[k],
                with_source,
                destinations as nat,
                expected@,
                slots@,
            ),
{
    let ghost views = hash_views(slots@);
    let mut failures: Vec<FileFailure> = Vec::new();
    assert(failure_views(failures@) =~= Seq::empty());
    let known = !expected.as_str().is_empty();
    let mut target: Option<usize> = None;
    let mut reference: Option<String> = None;
    if with_source {
        match &slots[0] {
            Ok(hash) => {
                if known && *hash != *expected {
                    push_failure(
                        &mut failures,
                        FileFailure::SourceChanged(hash.clone(), expected.clone()),
                    );
                }
                reference = Some(hash.clone());
            },
            Err(error) => {
                push_failure(&mut failures, FileFailure::SourceRead(error.clone()));
            },
        }
    } else if known {
        reference = Some(expected.clone());
    } else {
        let mut p: usize = 0;
        while p < slots.len() && target.is_none()
            invariant
                p <= slots@.len(),
                views == hash_views(slots@),
                match target {
                    Some(t) => {
                        &&& t < slots@.len()
                        &&& first_hash(views, 0) == Some(t as nat)
                        &&& reference is Some
                        &&& views[t as int] == Ok::<_, IoErrorView>(reference->0@)
                    },
                    None => {
                        &&& reference is None
                        &&& first_hash(views, 0) == first_hash(views, p as nat)
                    },
                },
            decreases slots@.len() - p,
        {
            assert(views[p as int] == hash_view(slots@[p as int]));
            if let Ok(hash) = &slots[p] {
                target = Some(p);
                reference = Some(hash.clone());
            }
            p += 1;
        }
    }
    let ghost wanted = text_of(reference);
    let ghost from = place_of(target);
    assert(wanted == reference_of(with_source, expected@, views));
    assert(from == reference_target(with_source, expected@, views));
    assert(failure_views(failures@) =~= source_failures(with_source, expected@, views));
    let offset: usize = if with_source {
        1
    } else {
        0
    };
    let ghost before = failure_views(failures@);
    let mut j: usize = 0;
    while j < destinations
        invariant
            j <= destinations,
            offset == offset_of(with_source),
            slots@.len() == destinations + offset,
            views == hash_views(slots@),
            wanted == text_of(reference),
            from == place_of(target),
            failure_views(failures@) == before + targets_failures(
                views,
                offset as nat,
                j as nat,
                wanted,
                from,
            ),
        decreases destinations - j,
    {
        let ghost so_far = failure_views(failures@);
        assert(views[offset + j] == hash_view(slots@[offset + j]));
        match &slots[offset + j] {
            Ok(hash) => {
                if let Some(right) = &reference {
                    if *hash != *right {
                        match target {
                            Some(p) => {
                                push_failure(
                                    &mut failures,
                                    FileFailure::TargetsDisagree(
                                        j,
                                        hash.clone(),
                                        p,
                                        right.clone(),
                                    ),
                                );
                            },
                            None => {
                                push_failure(
                                    &mut failures,
                                    FileFailure::HashMismatch(j, hash.clone(), right.clone()),
                                );
                            },
                        }
                    }
                }
            },
            Err(error) => {
                push_failure(&mut failures, FileFailure::DestRead(error.clone()));
            },
        }
        assert(failure_views(failures@) =~= so_far + target_failures(
            views[offset + j],
            j as nat,
            wanted,
            from,
        ));
        j += 1;
        assert(failure_views(failures@) =~= before + targets_failures(
            views,
            offset as nat,
            j as nat,
            wanted,
            from,
        ));
    }
    let verdict = FileVerdict { reference, failures };
    proof {
        let found = judged(with_source, destinations as nat, expected@, views).failures;
        assert(failure_views(failures@) == found);
        assert forall|k: int| #![trigger verdict.failures@[k]] 0 <= k
            < verdict.failures@.len() implies truthful(
            verdict.failures@[k],
            with_source,
            destinations as nat,
            expected@,
            slots@,
        ) by {
            assert(found[k] == verdict.failures@[k]@);
            assert(found.contains(found[k]));
            lemma_failure_is_truthful(
                verdict.failures@[k],
                with_source,
                destinations as nat,
                expected@,
                slots@,
            );
        }
    }
    verdict
}

proof fn lemma_targets_clean(
    slots: Seq<HashView>,
    offset: nat,
    n: nat,
    reference: Option<Seq<char>>,
    target: Option<nat>,
)
    ensures
        targets_failures(slots, offset, n, reference, target).len() == 0 <==> forall|j: int|
            0 <= j < n ==> target_failures(
                #[trigger] slots[offset + j],
                j as nat,
                reference,
                target,
            ).len() == 0,
    decreases n,
{
    if n > 0 {
        let less = (n - 1) as nat;
        lemma_targets_clean(slots, offset, less, reference, target);
        let last = target_failures(slots[(offset + less) as int], less, reference, target);
        if targets_failures(slots, offset, n, reference, target).len() == 0 {
            assert forall|j: int| 0 <= j < n implies target_failures(
                #[trigger] slots[offset + j],
                j as nat,
                reference,
                target,
            ).len() == 0 by {
                assert(last.len() == 0);
            }
        } else if targets_failures(slots, offset, less, reference, target).len() != 0 {
            let j = choose|j: int|
                0 <= j < less && target_failures(
                    #[trigger] slots[offset + j],
                    j as nat,
                    reference,
                    target,
                ).len() != 0;
            assert(0 <= j < n);
        } else {
            assert(last.len() != 0);
        }
    }
}

/// The first device that answered with a hash did so, and none before it did.
pub proof fn lemma_first_hash(slots: Seq<HashView>, i: nat)
    ensures
        match first_hash(slots, i) {
            Some(p) => i <= p < slots.len() && slots[p as int] is Ok && forall|k: int|
                i <= k < p ==> (#[trigger] slots[k]) is Err,
            None => forall|k: int| i <= k < slots.len() ==> (#[trigger] slots[k]) is Err,
        },
    decreases slots.len() - i,
{
    if i < slots.len() && slots[i as int] is Err {
        lemma_first_hash(slots, i + 1);
    }
}

/// Whether all devices found the hash `hash`, and the copying, if it recorded one, too.
pub open spec fn unanimous(expected: Seq<char>, slots: Seq<HashView>, hash: Seq<char>) -> bool {
    &&& expected.len() > 0 ==> expected == hash
    &&& forall|d: int|
        0 <= d < slots.len() ==> #[trigger] slots[d] == Ok::<Seq<char>, IoErrorView>(hash)
}

/// A file is verified exactly if all devices could read it and found the same hash, the one
/// that the copying recorded if it did.
pub proof fn lemma_verified_iff_unanimous(
    with_source: bool,
    destinations: nat,
    expected: Seq<char>,
    slots: Seq<HashView>,
)
    requires
        slots.len() == destinations + offset_of(with_source),
        slots.len() > 0,
    ensures
        judged(with_source, destinations, expected, slots).failures.len() == 0 <==> exists|
            hash: Seq<char>,
        | unanimous(expected, slots, hash),
        judged(with_source, destinations, expected, slots).failures.len() == 0 ==> {
            let reference = judged(with_source, destinations, expected, slots).reference;
            reference is Some && unanimous(expected, slots, reference->0)
        },
{
    let verdict = judged(with_source, destinations, expected, slots);
    let reference = reference_of(with_source, expected, slots);
    let target = reference_target(with_source, expected, slots);
    let offset = offset_of(with_source);
    lemma_targets_clean(slots, offset, destinations, reference, target);
    lemma_first_hash(slots, 0);
    if verdict.failures.len() == 0 {
        assert(source_failures(with_source, expected, slots).len() == 0);
        assert(targets_failures(slots, offset, destinations, reference, target).len() == 0);
        assert forall|j: int| 0 <= j < destinations implies #[trigger] slots[offset + j] is Ok
            && (reference is Some ==> slots[offset + j]->Ok_0 == reference->0) by {
            assert(target_failures(slots[offset + j], j as nat, reference, target).len() == 0);
        }
        if !with_source {
            assert(slots[offset + 0int] is Ok);
        }
        assert(reference is Some);
        let hash = reference->0;
        assert forall|d: int| 0 <= d < slots.len() implies #[trigger] slots[d] == Ok::<
            Seq<char>,
            IoErrorView,
        >(hash) by {
            if d >= offset {
                assert(slots[offset + (d - offset)] is Ok);
            }
        }
        assert(unanimous(expected, slots, hash));
    }
    if exists|hash: Seq<char>| unanimous(expected, slots, hash) {
        let hash = choose|hash: Seq<char>| unanimous(expected, slots, hash);
        assert(slots[0] == Ok::<Seq<char>, IoErrorView>(hash));
        assert(reference == Some(hash));
        assert forall|j: int| 0 <= j < destinations implies target_failures(
            #[trigger] slots[offset + j],
            j as nat,
            reference,
            target,
        ).len() == 0 by {
            assert(slots[offset + j] == Ok::<Seq<char>, IoErrorView>(hash));
        }
        assert(source_failures(with_source, expected, slots).len() == 0);
    }
}

/// Whether a failure is in the list.
proof fn lemma_target_failure(
    slots: Seq<HashView>,
    offset: nat,
    n: nat,
    reference: Option<Seq<char>>,
    target: Option<nat>,
    failure: FailureView,
)
    ensures
        targets_failures(slots, offset, n, reference, target).contains(failure) <==> exists|j: int|
            0 <= j < n && target_failures(
                #[trigger] slots[offset + j],
                j as nat,
                reference,
                target,
            ).contains(failure),
    decreases n,
{
    if n > 0 {
        let less = (n - 1) as nat;
        let before = targets_failures(slots, offset, less, reference, target);
        let last = target_failures(slots[(offset + less) as int], less, reference, target);
        let all = targets_failures(slots, offset, n, reference, target);
        lemma_target_failure(slots, offset, less, reference, target, failure);
        if all.contains(failure) {
            let k = choose|k: int| 0 <= k < all.len() && all[k] == failure;
            if k < before.len() {
                assert(before[k] == failure);
                assert(before.contains(failure));
                let j = choose|j: int|
                    0 <= j < less && target_failures(
                        #[trigger] slots[offset + j],
                        j as nat,
                        reference,
                        target,
                    ).contains(failure);
                assert(0 <= j < n);
            } else {
                assert(last[k - before.len()] == failure);
                assert(slots[offset + less as int] == slots[(offset + less) as int]);
            }
        }
        if exists|j: int|
            0 <= j < n && target_failures(
                #[trigger] slots[offset + j],
                j as nat,
                reference,
                target,
            ).contains(failure) {
            let j = choose|j: int|
                0 <= j < n && target_failures(
                    #[trigger] slots[offset + j],
                    j as nat,
                    reference,
                    target,
                ).contains(failure);
            if j < less {
                assert(before.contains(failure));
                let k = choose|k: int| 0 <= k < before.len() && before[k] == failure;
                assert(all[k] == failure);
            } else {
                let k = choose|k: int| 0 <= k < last.len() && last[k] == failure;
                assert(all[before.len() + k] == failure);
            }
        }
    }
}

proof fn lemma_failure_of_judged(
    with_source: bool,
    destinations: nat,
    expected: Seq<char>,
    slots: Seq<HashView>,
    failure: FailureView,
)
    ensures
        judged(with_source, destinations, expected, slots).failures.contains(failure) <==> (
        source_failures(with_source, expected, slots).contains(failure) || exists|j: int|
            0 <= j < destinations && target_failures(
                #[trigger] slots[offset_of(with_source) + j],
                j as nat,
                reference_of(with_source, expected, slots),
                reference_target(with_source, expected, slots),
            ).contains(failure)),
{
    let a = source_failures(with_source, expected, slots);
    let reference = reference_of(with_source, expected, slots);
    let target = reference_target(with_source, expected, slots);
    let b = targets_failures(slots, offset_of(with_source), destinations, reference, target);
    lemma_target_failure(
        slots,
        offset_of(with_source),
        destinations,
        reference,
        target,
        failure,
    );
    if (a + b).contains(failure) {
        let k = choose|k: int| 0 <= k < (a + b).len() && (a + b)[k] == failure;
        if k < a.len() {
            assert(a[k] == failure);
        } else {
            assert(b[k - a.len()] == failure);
        }
    } else if a.contains(failure) {
        let k = choose|k: int| 0 <= k < a.len() && a[k] == failure;
        assert((a + b)[k] == failure);
    } else if b.contains(failure) {
        let k = choose|k: int| 0 <= k < b.len() && b[k] == failure;
        assert((a + b)[a.len() + k] == failure);
    }
}

/// A source is reported as changed exactly if it was read and its hash is not the one that the
/// copying recorded, and as unreadable exactly if it could not be read.
pub proof fn lemma_source_failures_are_exact(
    with_source: bool,
    destinations: nat,
    expected: Seq<char>,
    slots: Seq<HashView>,
    found: Seq<char>,
    recorded: Seq<char>,
    error: IoErrorView,
)
    requires
        slots.len() == destinations + if with_source {
            1nat
        } else {
            0nat
        },
    ensures
        judged(with_source, destinations, expected, slots).failures.contains(
            FailureView::SourceChanged(found, recorded),
        ) <==> with_source && slots[0] == Ok::<Seq<char>, IoErrorView>(found) && expected.len() > 0
            && found != expected && recorded == expected,
        judged(with_source, destinations, expected, slots).failures.contains(
            FailureView::SourceRead(error),
        ) <==> with_source && slots[0] == Err::<Seq<char>, IoErrorView>(error),
{
    let changed = FailureView::SourceChanged(found, recorded);
    let unread = FailureView::SourceRead(error);
    let own = source_failures(with_source, expected, slots);
    lemma_failure_of_judged(with_source, destinations, expected, slots, changed);
    lemma_failure_of_judged(with_source, destinations, expected, slots, unread);
    if with_source && slots[0] == Ok::<Seq<char>, IoErrorView>(found) && expected.len() > 0
        && found != expected && recorded == expected {
        assert(own[0] == changed);
    }
    if with_source && slots[0] == Err::<Seq<char>, IoErrorView>(error) {
        assert(own[0] == unread);
    }
}

/// A destination is reported as unreadable exactly if it could not be read, and as wrong exactly
/// if it was read and its hash is another than the right one: that of the source if that is among
/// the devices, else the one that the copying recorded.
pub proof fn lemma_destination_failures_are_exact(
    with_source: bool,
    destinations: nat,
    expected: Seq<char>,
    slots: Seq<HashView>,
    j: nat,
    found: Seq<char>,
    right: Seq<char>,
    error: IoErrorView,
)
    requires
        slots.len() == destinations + if with_source {
            1nat
        } else {
            0nat
        },
    ensures
        judged(with_source, destinations, expected, slots).failures.contains(
            FailureView::DestRead(error),
        ) <==> exists|d: int|
            0 <= d < slots.len() && (with_source ==> d > 0) && #[trigger] slots[d] == Err::<
                Seq<char>,
                IoErrorView,
            >(error),
        judged(with_source, destinations, expected, slots).failures.contains(
            FailureView::HashMismatch(j, found, right),
        ) <==> {
            &&& j < destinations
            &&& found != right
            &&& if with_source {
                slots[0] == Ok::<Seq<char>, IoErrorView>(right) && slots[j as int + 1] == Ok::<
                    Seq<char>,
                    IoErrorView,
                >(found)
            } else {
                expected.len() > 0 && right == expected && slots[j as int] == Ok::<
                    Seq<char>,
                    IoErrorView,
                >(found)
            }
        },
{
    let offset = offset_of(with_source);
    let reference = reference_of(with_source, expected, slots);
    let target = reference_target(with_source, expected, slots);
    let unread = FailureView::DestRead(error);
    let wrong = FailureView::HashMismatch(j, found, right);
    lemma_failure_of_judged(with_source, destinations, expected, slots, unread);
    lemma_failure_of_judged(with_source, destinations, expected, slots, wrong);
    if judged(with_source, destinations, expected, slots).failures.contains(unread) {
        let k = choose|k: int|
            0 <= k < destinations && target_failures(
                #[trigger] slots[offset + k],
                k as nat,
                reference,
                target,
            ).contains(unread);
        assert(slots[offset + k] == Err::<Seq<char>, IoErrorView>(error));
    }
    if exists|d: int|
        0 <= d < slots.len() && (with_source ==> d > 0) && #[trigger] slots[d] == Err::<
            Seq<char>,
            IoErrorView,
        >(error) {
        let d = choose|d: int|
            0 <= d < slots.len() && (with_source ==> d > 0) && #[trigger] slots[d] == Err::<
                Seq<char>,
                IoErrorView,
            >(error);
        let k = d - offset;
        assert(slots[offset + k] == slots[d]);
        assert(target_failures(slots[offset + k], k as nat, reference, target)[0] == unread);
    }
    if j < destinations {
        assert(slots[offset + j as int] == slots[(offset + j) as int]);
        let own = target_failures(slots[offset + j as int], j, reference, target);
        if own.len() > 0 {
            assert(own.contains(own[0]));
        }
    }
}

/// Where neither the source nor a recorded hash says what is right, a destination is reported as
/// disagreeing exactly if it was read and its hash is another than that of the first destination
/// that could be read.
pub proof fn lemma_disagreements_are_exact(
    with_source: bool,
    destinations: nat,
    expected: Seq<char>,
    slots: Seq<HashView>,
    j: nat,
    found: Seq<char>,
    p: nat,
    other: Seq<char>,
)
    requires
        slots.len() == destinations + if with_source {
            1nat
        } else {
            0nat
        },
    ensures
        judged(with_source, destinations, expected, slots).failures.contains(
            FailureView::TargetsDisagree(j, found, p, other),
        ) <==> {
            &&& !with_source
            &&& expected.len() == 0
            &&& j < destinations
            &&& p < destinations
            &&& found != other
            &&& slots[j as int] == Ok::<Seq<char>, IoErrorView>(found)
            &&& slots[p as int] == Ok::<Seq<char>, IoErrorView>(other)
            &&& forall|k: int| 0 <= k < p ==> (#[trigger] slots[k]) is Err
        },
{
    let offset = offset_of(with_source);
    let reference = reference_of(with_source, expected, slots);
    let target = reference_target(with_source, expected, slots);
    let failure = FailureView::TargetsDisagree(j, found, p, other);
    lemma_failure_of_judged(with_source, destinations, expected, slots, failure);
    lemma_first_hash(slots, 0);
    if j < destinations {
        assert(slots[offset + j as int] == slots[(offset + j) as int]);
        let own = target_failures(slots[offset + j as int], j, reference, target);
        if own.len() > 0 {
            assert(own.contains(own[0]));
        }
    }
    if !with_source && p < destinations && slots[p as int] is Ok && (forall|k: int|
        0 <= k < p ==> (#[trigger] slots[k]) is Err) {
        assert(first_hash(slots, 0) is Some);
        let q = first_hash(slots, 0)->0;
        if q < p {
            assert(slots[q as int] is Err);
        }
        assert(q == p);
    }
}

/// Looking at one destination more adds one failure at most, behind the others, and one exactly
/// if that destination could not be read or has a wrong hash: the failures come in the order of
/// the devices.
pub proof fn lemma_failures_in_order_of_devices(
    with_source: bool,
    n: nat,
    expected: Seq<char>,
    slots: Seq<HashView>,
)
    requires
        slots.len() > n + if with_source {
            1nat
        } else {
            0nat
        },
    ensures
        ({
            let fewer = judged(with_source, n, expected, slots);
            let more = judged(with_source, n + 1, expected, slots);
            let slot = slots[(n + if with_source {
                1nat
            } else {
                0nat
            }) as int];
            &&& more.reference == fewer.reference
            &&& more.failures.take(fewer.failures.len() as int) == fewer.failures
            &&& more.failures.len() == fewer.failures.len() + if slot is Err || (fewer.reference
                is Some && slot->Ok_0 != fewer.reference->0) {
                1nat
            } else {
                0nat
            }
        }),
{
    let fewer = judged(with_source, n, expected, slots);
    let more = judged(with_source, n + 1, expected, slots);
    let offset = offset_of(with_source);
    assert(slots[(offset + n) as int] == slots[offset + n as int]);
    assert(more.failures =~= fewer.failures + target_failures(
        slots[(offset + n) as int],
        n,
        fewer.reference,
        reference_target(with_source, expected, slots),
    ));
    assert(more.failures.take(fewer.failures.len() as int) =~= fewer.failures);
}

/// The hash to hold the destinations against is that of the source, if that is among the devices
/// and could be read; else the recorded one; else that of a destination that could be read, if
/// any could.
pub proof fn lemma_reference_is_the_best_known(
    with_source: bool,
    destinations: nat,
    expected: Seq<char>,
    slots: Seq<HashView>,
)
    requires
        slots.len() == destinations + if with_source {
            1nat
        } else {
            0nat
        },
    ensures
        ({
            let reference = judged(with_source, destinations, expected, slots).reference;
            &&& with_source ==> (match slots[0] {
                Ok(hash) => reference == Some(hash),
                Err(_) => reference is None,
            })
            &&& !with_source && expected.len() > 0 ==> reference == Some(expected)
            &&& !with_source && expected.len() == 0 ==> (match reference {
                Some(hash) => exists|p: int|
                    0 <= p < slots.len() && #[trigger] slots[p] == Ok::<Seq<char>, IoErrorView>(
                        hash,
                    ) && forall|k: int| 0 <= k < p ==> (#[trigger] slots[k]) is Err,
                None => forall|k: int| 0 <= k < slots.len() ==> (#[trigger] slots[k]) is Err,
            })
        }),
{
    lemma_first_hash(slots, 0);
}

/// Whether a failure says what the answers show.
pub open spec fn truthful(
    failure: FileFailure,
    with_source: bool,
    destinations: nat,
    expected: Seq<char>,
    slots: Seq<Result<String, IoError>>,
) -> bool {
    let first: int = if with_source {
        1
    } else {
        0
    };
    match failure {
        FileFailure::SourceChanged(found, recorded) => with_source && slots[0] is Ok && found@
            == slots[0]->Ok_0@ && recorded@ == expected && found@ != expected,
        FileFailure::SourceRead(error) => with_source && slots[0] is Err && error.message@
            == slots[0]->Err_0.message@,
        FileFailure::TargetsDisagree(j, hash, p, other) => !with_source && j < destinations && p
            < destinations && slots[j as int] is Ok && slots[p as int] is Ok && hash@
            == slots[j as int]->Ok_0@ && other@ == slots[p as int]->Ok_0@ && hash@ != other@,
        FileFailure::HashMismatch(j, hash, right) => j < destinations && slots[first + j] is Ok
            && hash@ == slots[first + j]->Ok_0@ && hash@ != right@ && if with_source {
            slots[0] is Ok && right@ == slots[0]->Ok_0@
        } else {
            right@ == expected
        },
        FileFailure::DestRead(error) => exists|d: int|
            first <= d < slots.len() && (#[trigger] slots[d]) is Err && error.message@
                == slots[d]->Err_0.message@,
    }
}

proof fn lemma_failure_is_truthful(
    failure: FileFailure,
    with_source: bool,
    destinations: nat,
    expected: Seq<char>,
    slots: Seq<Result<String, IoError>>,
)
    requires
        slots.len() == destinations + offset_of(with_source),
        judged(with_source, destinations, expected, hash_views(slots)).failures.contains(failure@),
    ensures
        truthful(failure, with_source, destinations, expected, slots),
{
    let views = hash_views(slots);
    let none = IoErrorView { kind: ErrorKind::Other, message: Seq::empty() };
    let blank = Seq::<char>::empty();
    assert forall|d: int| 0 <= d < slots.len() implies #[trigger] views[d] == hash_view(
        slots[d],
    ) by {
    }
    match failure {
        FileFailure::SourceChanged(found, recorded) => {
            lemma_source_failures_are_exact(
                with_source,
                destinations,
                expected,
                views,
                found@,
                recorded@,
                none,
            );
            assert(views[0] == hash_view(slots[0]));
        },
        FileFailure::SourceRead(error) => {
            lemma_source_failures_are_exact(
                with_source,
                destinations,
                expected,
                views,
                blank,
                blank,
                error@,
            );
            assert(views[0] == hash_view(slots[0]));
        },
        FileFailure::TargetsDisagree(j, hash, p, other) => {
            lemma_disagreements_are_exact(
                with_source,
                destinations,
                expected,
                views,
                j as nat,
                hash@,
                p as nat,
                other@,
            );
            assert(views[j as int] == hash_view(slots[j as int]));
            assert(views[p as int] == hash_view(slots[p as int]));
        },
        FileFailure::HashMismatch(j, hash, right) => {
            lemma_destination_failures_are_exact(
                with_source,
                destinations,
                expected,
                views,
                j as nat,
                hash@,
                right@,
                none,
            );
            assert(views[0] == hash_view(slots[0]));
            assert(views[j as int + offset_of(with_source)] == hash_view(
                slots[j as int + offset_of(with_source)],
            ));
        },
        FileFailure::DestRead(error) => {
            lemma_destination_failures_are_exact(
                with_source,
                destinations,
                expected,
                views,
                0,
                blank,
                blank,
                error@,
            );
            let d = choose|d: int|
                0 <= d < views.len() && (with_source ==> d > 0) && #[trigger] views[d] == Err::<
                    Seq<char>,
                    IoErrorView,
                >(error@);
            assert(views[d] == hash_view(slots[d]));
            assert(slots[d] is Err);
        },
    }
}

} // verus!
