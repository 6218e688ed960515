use cvv::coordinator::{verify_all, FileOutcome, FileReport, Verification, VerifyEvent, VerifyRun};
use cvv::engine::CopyResult;
use cvv::failure::{ErrorKind, IoError};
use cvv::path::{FilePath, PathPart};
use cvv::verdict::{judge_file, FileFailure};
use cvv::verify::{
    transfer_checks, verify_transfer, verify_worker, FileHash, TransferFailure, VerifyMode, Worker,
    WorkerAction, WorkerEvent,
};
use xxhash_rust::xxh3::xxh3_64;

fn path(text: &str) -> FilePath {
    FilePath::new(
        text.split('/')
            .filter(|name| !name.is_empty())
            .map(|name| PathPart::Normal(name.as_bytes().to_vec()))
            .collect(),
    )
}

fn show(path: &FilePath) -> String {
    let mut names = Vec::new();
    for part in &path.parts {
        match part {
            PathPart::Normal(bytes) => names.push(String::from_utf8(bytes.clone()).unwrap()),
            _ => names.push(String::from("?")),
        }
    }
    names.join("/")
}

fn result(name: &str, size: u64, hash: &str, success: bool) -> CopyResult {
    CopyResult {
        relative_path: path(name),
        source_path: path(&format!("src/{name}")),
        size,
        inflight_hash: String::from(hash),
        success,
        skipped: success && hash.is_empty(),
        error: None,
    }
}

fn ok(hash: &str) -> Result<String, IoError> {
    Ok(String::from(hash))
}

fn broken(message: &str) -> Result<String, IoError> {
    Err(IoError::new(ErrorKind::Other, message))
}

fn results() -> Vec<CopyResult> {
    vec![
        result("a", 10, "AA", true),
        result("failed", 5, "", false),
        result("old", 20, "", true),
    ]
}

fn begin(mode: VerifyMode) -> VerifyRun {
    match verify_all(results(), &vec![path("x"), path("y")], mode) {
        Verification::Devices(run, _, _) => run,
        _ => panic!("no devices"),
    }
}

#[test]
fn each_device_gets_all_files_in_order() {
    let destinations = vec![path("x"), path("y")];
    match verify_all(results(), &destinations, VerifyMode::Source) {
        Verification::Devices(run, jobs, overall) => {
            assert_eq!(run.counts(), (0, 2));
            assert!(!run.is_over());
            assert_eq!(overall, 90);
            let listed: Vec<Vec<(usize, String)>> = jobs
                .iter()
                .map(|job| job.files.iter().map(|(seq, at)| (*seq, show(at))).collect())
                .collect();
            assert_eq!(
                listed,
                vec![
                    vec![(0, String::from("src/a")), (1, String::from("src/old"))],
                    vec![(0, String::from("x/a")), (1, String::from("x/old"))],
                    vec![(0, String::from("y/a")), (1, String::from("y/old"))],
                ]
            );
            assert!(jobs.iter().all(|job| job.total == 30));
        }
        _ => panic!("no devices"),
    }
    match verify_all(results(), &destinations, VerifyMode::Target) {
        Verification::Devices(_, jobs, overall) => {
            assert_eq!(jobs.len(), 2);
            assert_eq!(overall, 60);
        }
        _ => panic!("no devices"),
    }
}

#[test]
fn failed_files_leave_nothing_to_verify() {
    let only_failed = vec![result("f", 1, "", false)];
    assert!(matches!(
        verify_all(only_failed, &vec![path("x")], VerifyMode::Target),
        Verification::Nothing(_)
    ));
}

fn outcome(report: &FileReport) -> String {
    match &report.outcome {
        FileOutcome::Verified(hash) => format!("{} {} ok {hash}", report.seq, report.index),
        FileOutcome::Failed(failures) => format!("{} {} {}", report.seq, report.index, failures.len()),
        FileOutcome::WorkerExited => format!("{} {} exited", report.seq, report.index),
    }
}

#[test]
fn files_are_judged_in_order_once_all_have_answered() {
    let mut run = begin(VerifyMode::Target);
    assert!(run.step(VerifyEvent::Answer(0, 0, ok("AA"))).is_empty());
    assert!(run.step(VerifyEvent::Answer(1, 0, ok("BB"))).is_empty());
    assert!(run.step(VerifyEvent::Answer(1, 1, ok("BB"))).is_empty());
    assert!(run.step(VerifyEvent::Timeout).is_empty());
    let reports = run.step(VerifyEvent::Answer(0, 1, ok("AA")));
    let reports: Vec<String> = reports.iter().map(outcome).collect();
    assert_eq!(reports, vec!["0 0 ok AA", "1 2 ok BB"]);
    assert!(run.is_over() && run.passed() && !run.is_aborted());
    assert_eq!(run.counts(), (2, 2));
    assert_eq!(show(&run.result(2).relative_path), "old");
    let results = run.into_results();
    assert_eq!(results[0].inflight_hash, "AA");
    assert_eq!(results[1].inflight_hash, "");
    assert_eq!(results[2].inflight_hash, "BB");
    assert!(results[2].skipped);
}

#[test]
fn the_order_of_answers_does_not_matter() {
    let mut answers = vec![(0, 0, "AA"), (1, 0, "BB"), (0, 1, "AX"), (1, 1, "BB")];
    let mut ends = Vec::new();
    for _ in 0..4 {
        answers.rotate_left(1);
        let mut run = begin(VerifyMode::Target);
        for (seq, device, hash) in &answers {
            run.step(VerifyEvent::Answer(*seq, *device, ok(hash)));
        }
        assert!(run.is_over());
        let passed = run.passed();
        let counts = run.counts();
        let hashes: Vec<String> =
            run.into_results().into_iter().map(|result| result.inflight_hash).collect();
        ends.push((passed, counts, hashes));
    }
    assert_eq!(ends[0], (false, (1, 2), vec![String::from("AA"), String::new(), String::from("BB")]));
    assert!(ends.iter().all(|end| *end == ends[0]));
}

#[test]
fn a_wrong_hash_fails_the_verification() {
    let mut run = begin(VerifyMode::Target);
    run.step(VerifyEvent::Answer(0, 0, ok("AA")));
    let reports = run.step(VerifyEvent::Answer(0, 1, ok("ZZ")));
    match &reports[0].outcome {
        FileOutcome::Failed(failures) => {
            assert_eq!(failures.len(), 1);
            assert!(matches!(&failures[0], FileFailure::HashMismatch(1, found, right)
                if found == "ZZ" && right == "AA"));
        }
        _ => panic!("a wrong hash was accepted"),
    }
    run.step(VerifyEvent::Answer(1, 0, ok("BB")));
    run.step(VerifyEvent::Answer(1, 1, ok("BB")));
    assert!(run.is_over());
    assert!(!run.passed());
    assert_eq!(run.counts(), (1, 2));
}

#[test]
fn a_stopped_device_stops_the_verification() {
    let mut run = begin(VerifyMode::Target);
    run.step(VerifyEvent::Answer(0, 0, ok("AA")));
    let reports = run.step(VerifyEvent::Answer(0, 1, Err(IoError::aborted())));
    assert!(reports.is_empty());
    assert!(run.is_over() && run.is_aborted());
    assert!(!run.passed());
    assert_eq!(run.counts(), (0, 2));
}

#[test]
fn a_worker_that_ends_early_fails_its_file() {
    let mut run = begin(VerifyMode::Target);
    run.step(VerifyEvent::Answer(0, 0, ok("AA")));
    run.step(VerifyEvent::Answer(0, 1, ok("AA")));
    let reports = run.step(VerifyEvent::Disconnected);
    let reports: Vec<String> = reports.iter().map(outcome).collect();
    assert_eq!(reports, vec!["1 2 exited"]);
    assert!(run.is_over() && !run.passed() && !run.is_aborted());
    assert_eq!(run.counts(), (1, 2));
}

#[test]
fn a_hash_is_not_recorded_for_a_file_that_failed() {
    let mut run = begin(VerifyMode::Target);
    run.step(VerifyEvent::Answer(0, 0, ok("AA")));
    run.step(VerifyEvent::Answer(0, 1, ok("AA")));
    run.step(VerifyEvent::Answer(1, 0, ok("B1")));
    run.step(VerifyEvent::Answer(1, 1, ok("B2")));
    assert!(!run.passed());
    assert_eq!(run.into_results()[2].inflight_hash, "");
}

fn failures(
    with_source: bool,
    expected: &str,
    slots: Vec<Result<String, IoError>>,
) -> (Option<String>, Vec<String>) {
    let destinations = slots.len() - with_source as usize;
    let verdict = judge_file(with_source, destinations, &String::from(expected), &slots);
    let texts = verdict
        .failures
        .iter()
        .map(|failure| match failure {
            FileFailure::SourceChanged(found, right) => format!("changed {found} {right}"),
            FileFailure::SourceRead(error) => format!("source {}", error.message),
            FileFailure::TargetsDisagree(j, hash, p, other) => format!("disagree {j} {hash} {p} {other}"),
            FileFailure::HashMismatch(j, hash, right) => format!("mismatch {j} {hash} {right}"),
            FileFailure::DestRead(error) => format!("dest {}", error.message),
        })
        .collect();
    (verdict.reference, texts)
}

#[test]
fn a_unanimous_file_is_verified() {
    assert_eq!(failures(true, "H", vec![ok("H"), ok("H")]), (Some(String::from("H")), vec![]));
    assert_eq!(failures(false, "", vec![ok("H"), ok("H")]), (Some(String::from("H")), vec![]));
    assert_eq!(failures(false, "H", vec![ok("H")]), (Some(String::from("H")), vec![]));
}

#[test]
fn a_changed_source_is_reported_first() {
    let (reference, texts) = failures(true, "H", vec![ok("S"), ok("H"), broken("gone")]);
    assert_eq!(reference, Some(String::from("S")));
    assert_eq!(texts, vec!["changed S H", "mismatch 0 H S", "dest gone"]);
}

#[test]
fn an_unreadable_source_is_reported() {
    let (reference, texts) = failures(true, "H", vec![broken("io"), ok("X")]);
    assert_eq!(reference, None);
    assert_eq!(texts, vec!["source io"]);
}

#[test]
fn disagreeing_targets_are_held_against_the_first_readable_one() {
    let (reference, texts) = failures(false, "", vec![broken("bad"), ok("P"), ok("Q"), ok("P")]);
    assert_eq!(reference, Some(String::from("P")));
    assert_eq!(texts, vec!["dest bad", "disagree 2 Q 1 P"]);
}

#[test]
fn unreadable_targets_leave_no_reference() {
    let (reference, texts) = failures(false, "", vec![broken("p"), broken("q")]);
    assert_eq!(reference, None);
    assert_eq!(texts, vec!["dest p", "dest q"]);
}

#[test]
fn file_hashes_are_those_of_the_contents() {
    let data: Vec<u8> = (0..3000u32).map(|i| (i % 256) as u8).collect();
    for size in [1usize, 100, 2999, 3000, 4096] {
        let mut hash = FileHash::new();
        for chunk in data.chunks(size) {
            assert!(hash.poll(false).is_none());
            let mut buffer = vec![9u8; 4096];
            buffer[..chunk.len()].copy_from_slice(chunk);
            assert!(hash.read(Ok(chunk.len()), &buffer).is_none());
        }
        assert!(hash.poll(false).is_none());
        let text = hash.read(Ok(0), &[]).unwrap().unwrap();
        assert_eq!(text, format!("{:016X}", xxh3_64(&data)));
    }
}

#[test]
fn hashing_stops_on_request_and_on_failure() {
    let mut hash = FileHash::new();
    let stopped = hash.poll(true).unwrap().unwrap_err();
    assert_eq!(stopped.kind, ErrorKind::Interrupted);
    assert_eq!(stopped.message, "aborted");
    let mut hash = FileHash::new();
    assert!(hash.poll(false).is_none());
    let failed = hash.read(Err(IoError::new(ErrorKind::Other, "bad sector")), &[]).unwrap();
    assert_eq!(failed.unwrap_err().message, "bad sector");
}

#[test]
fn a_worker_goes_through_its_files_in_order() {
    let mut worker = Worker::new(4, vec![(0, path("x/a")), (1, path("x/b"))]);
    assert!(matches!(verify_worker(&mut worker, WorkerEvent::Polled(false)),
        WorkerAction::Hash(at) if show(&at) == "x/a"));
    assert!(matches!(verify_worker(&mut worker, WorkerEvent::Hashed(ok("H"))),
        WorkerAction::Send(0, 4, Ok(hash)) if hash == "H"));
    assert!(matches!(verify_worker(&mut worker, WorkerEvent::Sent(true)), WorkerAction::Poll));
    assert!(matches!(verify_worker(&mut worker, WorkerEvent::Polled(false)),
        WorkerAction::Hash(at) if show(&at) == "x/b"));
    assert!(matches!(verify_worker(&mut worker, WorkerEvent::Hashed(broken("e"))),
        WorkerAction::Send(1, 4, Err(error)) if error.message == "e"));
    assert!(matches!(verify_worker(&mut worker, WorkerEvent::Sent(true)), WorkerAction::Poll));
    assert!(matches!(verify_worker(&mut worker, WorkerEvent::Polled(false)), WorkerAction::Stop));
}

#[test]
fn a_worker_that_is_stopped_says_so_once() {
    let mut worker = Worker::new(1, vec![(0, path("a")), (1, path("b"))]);
    assert!(matches!(verify_worker(&mut worker, WorkerEvent::Polled(true)),
        WorkerAction::Send(0, 1, Err(error)) if error.is_interrupted()));
    assert!(matches!(verify_worker(&mut worker, WorkerEvent::Sent(true)), WorkerAction::Stop));
}

#[test]
fn a_worker_ends_when_nobody_listens() {
    let mut worker = Worker::new(1, vec![(0, path("a")), (1, path("b"))]);
    verify_worker(&mut worker, WorkerEvent::Polled(false));
    verify_worker(&mut worker, WorkerEvent::Hashed(ok("H")));
    assert!(matches!(verify_worker(&mut worker, WorkerEvent::Sent(false)), WorkerAction::Stop));
}

#[test]
fn sizes_are_compared_at_every_place() {
    let checks = transfer_checks(&results(), &vec![path("x"), path("y")]);
    let listed: Vec<(String, u64)> = checks.iter().map(|(at, size)| (show(at), *size)).collect();
    assert_eq!(
        listed,
        vec![
            (String::from("x/a"), 10),
            (String::from("y/a"), 10),
            (String::from("x/old"), 20),
            (String::from("y/old"), 20),
        ]
    );
    let report = verify_transfer(&checks, &vec![Ok(10), Ok(10), Ok(20), Ok(20)]);
    assert!(report.all_ok);
    assert_eq!(report.checked, 4);
    assert!(report.failures.is_empty());
}

#[test]
fn wrong_sizes_and_missing_files_are_reported() {
    let checks = transfer_checks(&results(), &vec![path("x"), path("y")]);
    let missing = Err(IoError::new(ErrorKind::Other, "not found"));
    let report = verify_transfer(&checks, &vec![Ok(10), Ok(9), missing, Ok(20)]);
    assert!(!report.all_ok);
    assert_eq!(report.checked, 4);
    assert_eq!(report.failures.len(), 2);
    assert!(matches!(&report.failures[0], TransferFailure::WrongSize(at, 9, 10) if show(at) == "y/a"));
    assert!(matches!(&report.failures[1], TransferFailure::Unreadable(at, error)
        if show(at) == "x/old" && error.message == "not found"));
}

#[test]
fn comparing_sizes_needs_no_devices() {
    match verify_all(results(), &vec![path("x")], VerifyMode::Transfer) {
        Verification::Transfer(same, checks) => {
            assert_eq!(same.len(), 3);
            assert_eq!(checks.len(), 2);
        }
        _ => panic!("sizes are not compared"),
    }
}

#[test]
fn a_second_verification_changes_nothing() {
    let destinations = vec![path("x"), path("y")];
    let mut results = results();
    for _ in 0..2 {
        let mut run = match verify_all(results, &destinations, VerifyMode::Source) {
            Verification::Devices(run, _, _) => run,
            _ => panic!("no devices"),
        };
        for device in [2, 0, 1] {
            run.step(VerifyEvent::Answer(0, device, ok("AA")));
            run.step(VerifyEvent::Answer(1, device, ok("BB")));
        }
        assert!(run.is_over() && run.passed());
        assert_eq!(run.counts(), (2, 2));
        results = run.into_results();
        let hashes: Vec<&str> = results.iter().map(|result| result.inflight_hash.as_str()).collect();
        assert_eq!(hashes, vec!["AA", "", "BB"]);
    }
}
