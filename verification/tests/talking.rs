use cvv::cli::{
    after_copy, after_verification, completed_count, is_refusal, mode_answered, mode_of_word,
    parse_verify_mode, plan_verification, verification_refused, AfterCopy, AfterVerify, VerifyPlan,
};
use cvv::coordinator::FileOutcome;
use cvv::engine::CopyResult;
use cvv::failure::{ErrorKind, IoError};
use cvv::messages::{
    completed_line, copied_line, copy_summary_line, failed_line, failure_line, found_line,
    outcome_lines, place_label, skipped_line, starting_line, transfer_failure_line,
    transfer_summary_line, verify_summary_line,
};
use cvv::path::FilePath;
use cvv::verdict::FileFailure;
use cvv::verify::{TransferFailure, VerifyMode};

fn result(success: bool) -> CopyResult {
    CopyResult {
        relative_path: FilePath::new(Vec::new()),
        source_path: FilePath::new(Vec::new()),
        size: 1,
        inflight_hash: String::new(),
        success,
        skipped: false,
        error: None,
    }
}

fn gone() -> IoError {
    IoError::new(ErrorKind::Other, "gone")
}

#[test]
fn modes_are_parsed_by_name() {
    assert_eq!(parse_verify_mode("source"), Ok(VerifyMode::Source));
    assert_eq!(parse_verify_mode("target"), Ok(VerifyMode::Target));
    assert_eq!(parse_verify_mode("transfer"), Ok(VerifyMode::Transfer));
}

#[test]
fn other_names_are_no_modes() {
    for name in ["Source", "", " target", "all"] {
        assert_eq!(
            parse_verify_mode(name),
            Err(format!("unknown mode: {name} (expected: source, target, transfer)"))
        );
    }
}

#[test]
fn a_verification_can_be_refused() {
    assert!(verification_refused("n\n"));
    assert!(verification_refused("  NO \r\n"));
    assert!(verification_refused("\u{3000}No\u{2028}"));
    assert!(!verification_refused("\n"));
    assert!(!verification_refused("y"));
    assert!(!verification_refused("n o"));
    assert!(is_refusal(&String::from("no")));
    assert!(!is_refusal(&String::from("NO")));
}

#[test]
fn the_mode_can_be_answered() {
    assert_eq!(mode_answered(" SOURCE\n"), (VerifyMode::Source, None));
    assert_eq!(mode_answered("\n"), (VerifyMode::Target, None));
    assert_eq!(mode_answered("Target"), (VerifyMode::Target, None));
    assert_eq!(
        mode_answered("Transfer\n"),
        (VerifyMode::Target, Some(String::from("Unknown mode: transfer, using target")))
    );
    assert_eq!(mode_of_word(&String::from("source")), (VerifyMode::Source, None));
}

#[test]
fn the_end_of_copying_is_judged() {
    assert_eq!(after_copy(true, &vec![result(false)]), AfterCopy::Interrupted);
    assert_eq!(after_copy(false, &vec![result(true), result(false)]), AfterCopy::SomeFailed);
    assert_eq!(after_copy(false, &vec![result(true)]), AfterCopy::Complete);
    assert_eq!(after_copy(false, &Vec::new()), AfterCopy::Complete);
}

#[test]
fn the_verification_is_planned() {
    assert_eq!(plan_verification(None, true), VerifyPlan::Skip(true));
    assert_eq!(plan_verification(Some(VerifyMode::Transfer), false), VerifyPlan::Skip(false));
    assert_eq!(
        plan_verification(Some(VerifyMode::Source), false),
        VerifyPlan::Verify(VerifyMode::Source)
    );
    assert_eq!(
        plan_verification(Some(VerifyMode::Target), true),
        VerifyPlan::Verify(VerifyMode::Target)
    );
}

#[test]
fn the_end_of_a_verification_is_judged() {
    assert_eq!(after_verification(true, true), AfterVerify::Interrupted);
    assert_eq!(after_verification(false, true), AfterVerify::Passed);
    assert_eq!(after_verification(false, false), AfterVerify::Failed);
}

#[test]
fn completed_files_are_counted() {
    assert_eq!(completed_count(&vec![result(true), result(false), result(true)]), 2);
    assert_eq!(completed_count(&Vec::new()), 0);
}

#[test]
fn lines_of_the_copying() {
    assert_eq!(found_line(3, 3 << 29), "Found 3 file(s), 1.5 GB total");
    assert_eq!(place_label(0, 12), "1/12");
    assert_eq!(skipped_line(1, 3, "d/a"), "[2/3] Skipped d/a (already exists)");
    assert_eq!(
        copied_line(0, 3, "a", "00FF", 2048, "12.5"),
        "[1/3] Copied a  00FF  2.0 KB  12.5 MB/s"
    );
    assert_eq!(failed_line(2, 3, "a", &gone()), "[3/3] FAILED a  gone");
    assert_eq!(copy_summary_line(0, 4, 0, "9.9"), "\nCopy complete: 0 copied, 4 skipped");
    assert_eq!(
        copy_summary_line(2, 1, 5, "9.9"),
        "\nCopy complete: 2 copied, 1 skipped, 9.9 MB/s avg"
    );
    assert_eq!(completed_line(10), "\nAll 10 file(s) completed.");
}

#[test]
fn lines_of_a_failed_file() {
    let dests = vec![String::from("/x"), String::from("/y")];
    let text = |s: &str| String::from(s);
    let line = |failure: FileFailure| failure_line(0, 2, "f", &failure, &dests);
    assert_eq!(
        line(FileFailure::SourceChanged(text("A"), text("B"))),
        "[1/2] FAIL f (source changed: A vs inflight B)"
    );
    assert_eq!(line(FileFailure::SourceRead(gone())), "[1/2] FAIL f (source read error: gone)");
    assert_eq!(
        line(FileFailure::TargetsDisagree(1, text("A"), 0, text("B"))),
        "[1/2] FAIL f (targets disagree: /y = A vs /x = B)"
    );
    assert_eq!(
        line(FileFailure::HashMismatch(1, text("A"), text("B"))),
        "[1/2] FAIL f -> /y (hash mismatch: A vs B)"
    );
    assert_eq!(line(FileFailure::DestRead(gone())), "[1/2] FAIL f (dest read error: gone)");
}

#[test]
fn lines_of_an_outcome() {
    let dests = vec![String::from("/x")];
    assert_eq!(
        outcome_lines(1, 2, "f", &FileOutcome::Verified(String::from("H")), &dests),
        vec!["[2/2] Verified f  H"]
    );
    assert_eq!(
        outcome_lines(1, 2, "f", &FileOutcome::WorkerExited, &dests),
        vec!["[2/2] FAIL f (worker exited before completing verification)"]
    );
    let failures = vec![FileFailure::SourceRead(gone()), FileFailure::DestRead(gone())];
    assert_eq!(
        outcome_lines(0, 2, "f", &FileOutcome::Failed(failures), &dests),
        vec!["[1/2] FAIL f (source read error: gone)", "[1/2] FAIL f (dest read error: gone)"]
    );
}

#[test]
fn lines_of_a_verification() {
    assert_eq!(starting_line(VerifyMode::Source), "\nStarting source verification...");
    assert_eq!(starting_line(VerifyMode::Target), "\nStarting target verification...");
    assert_eq!(verify_summary_line(1, 2, "0.0"), "\nVerification complete: 1/2 OK, 0.0 MB/s avg");
    let at = FilePath::new(Vec::new());
    assert_eq!(
        transfer_failure_line(&TransferFailure::WrongSize(at.clone(), 9, 10), "/x/a"),
        "FAIL /x/a (9 bytes, expected 10)"
    );
    assert_eq!(
        transfer_failure_line(&TransferFailure::Unreadable(at, gone()), "/x/a"),
        "FAIL /x/a (gone)"
    );
    assert_eq!(transfer_summary_line(4), "Transfer check: 4 file(s) size-compared");
}
