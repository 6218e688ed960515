//! The lines that a reader sees.
use vstd::prelude::*;
use vstd::string::*;

use crate::coordinator::{FileOutcome, OutcomeView};
use crate::failure::IoError;
use crate::text::{decimal, format_size, push_decimal, scaled, scaled_text, size_text, GB};
use crate::verdict::{FailureView, FileFailure};
use crate::verify::{TransferFailure, TransferFailureView, VerifyMode};

verus! {

/// What stands before what is said of a file: its number, counted from one, and how many
/// there are.
pub open spec fn tag(index: nat, total: nat) -> Seq<char> {
    "["@ + decimal(index + 1) + "/"@ + decimal(total) + "] "@
}

fn tagged(index: usize, total: usize) -> (line: String)
    requires
        index < total,
    ensures
        line@ == tag(index as nat, total as nat),
        line@ == "["@ + decimal(index as nat + 1) + "/"@ + decimal(total as nat) + "] "@,
{
    let mut line = String::from_str("[");
    push_decimal(&mut line, (index + 1) as u64);
    line.append("/");
    push_decimal(&mut line, total as u64);
    line.append("] ");
    line
}

/// How many files were found, and how large they are together.
pub fn found_line(files: usize, bytes: u64) -> (line: String)
    ensures
        line@ == "Found "@ + decimal(files as nat) + " file(s), "@ + scaled(
            bytes as nat,
            GB as nat,
            " GB total"@,
        ),
{
    let mut line = String::from_str("Found ");
    push_decimal(&mut line, files as u64);
    line.append(" file(s), ");
    line.append(scaled_text(bytes, GB, " GB total").as_str());
    line
}

/// The place of a file in the list, as a progress bar shows it.
pub fn place_label(index: usize, total: usize) -> (label: String)
    requires
        index < total,
    ensures
        label@ == decimal(index as nat + 1) + "/"@ + decimal(total as nat),
{
    let mut label = String::new();
    push_decimal(&mut label, (index + 1) as u64);
    proof {
        assert(label@ =~= decimal(index as nat + 1));
    }
    label.append("/");
    push_decimal(&mut label, total as u64);
    label
}

/// What is said of a file that all destinations have already.
pub fn skipped_line(index: usize, total: usize, name: &str) -> (line: String)
    requires
        index < total,
    ensures
        line@ == tag(index as nat, total as nat) + "Skipped "@ + name@ + " (already exists)"@,
        line@ == "["@ + decimal(index as nat + 1) + "/"@ + decimal(total as nat) + "] "@
            + "Skipped "@ + name@ + " (already exists)"@,
{
    let mut line = tagged(index, total);
    line.append("Skipped ");
    line.append(name);
    line.append(" (already exists)");
    line
}

/// What is said of a file that was copied. `speed` is in megabytes per second.
pub fn copied_line(
    index: usize,
    total: usize,
    name: &str,
    hash: &str,
    bytes: u64,
    speed: &str,
) -> (line: String)
    requires
        index < total,
    ensures
        line@ == tag(index as nat, total as nat) + "Copied "@ + name@ + "  "@ + hash@ + "  "@
            + size_text(bytes as nat) + "  "@ + speed@ + " MB/s"@,
        line@ == "["@ + decimal(index as nat + 1) + "/"@ + decimal(total as nat) + "] "@
            + "Copied "@ + name@ + "  "@ + hash@ + "  "@ + size_text(bytes as nat) + "  "@ + speed@
            + " MB/s"@,
{
    let mut line = tagged(index, total);
    line.append("Copied ");
    line.append(name);
    line.append("  ");
    line.append(hash);
    line.append("  ");
    line.append(format_size(bytes).as_str());
    line.append("  ");
    line.append(speed);
    line.append(" MB/s");
    line
}

/// What is said of a file that could not be copied.
pub fn failed_line(index: usize, total: usize, name: &str, error: &IoError) -> (line: String)
    requires
        index < total,
    ensures
        line@ == tag(index as nat, total as nat) + "FAILED "@ + name@ + "  "@ + error@.message,
        line@ == "["@ + decimal(index as nat + 1) + "/"@ + decimal(total as nat) + "] "@
            + "FAILED "@ + name@ + "  "@ + error.message@,
{
    let mut line = tagged(index, total);
    line.append("FAILED ");
    line.append(name);
    line.append("  ");
    line.append(error.message.as_str());
    line
}

/// What is said at the end of the copying. The average speed is left out if nothing was
/// copied.
pub open spec fn copy_summary(
    copied: nat,
    skipped: nat,
    copied_bytes: nat,
    speed: Seq<char>,
) -> Seq<char> {
    let counts = "\nCopy complete: "@ + decimal(copied) + " copied, "@ + decimal(skipped)
        + " skipped"@;
    if copied_bytes == 0 {
        counts
    } else {
        counts + ", "@ + speed + " MB/s avg"@
    }
}

/// What is said at the end of the copying.
pub fn copy_summary_line(
    copied: usize,
    skipped: usize,
    copied_bytes: u64,
    speed: &str,
) -> (line: String)
    ensures
        line@ == copy_summary(copied as nat, skipped as nat, copied_bytes as nat, speed@),
        copied_bytes == 0 ==> line@ == "\nCopy complete: "@ + decimal(copied as nat)
            + " copied, "@ + decimal(skipped as nat) + " skipped"@,
        copied_bytes != 0 ==> line@ == "\nCopy complete: "@ + decimal(copied as nat)
            + " copied, "@ + decimal(skipped as nat) + " skipped"@ + ", "@ + speed@
            + " MB/s avg"@,
{
    let mut line = String::from_str("\nCopy complete: ");
    push_decimal(&mut line, copied as u64);
    line.append(" copied, ");
    push_decimal(&mut line, skipped as u64);
    line.append(" skipped");
    if copied_bytes != 0 {
        line.append(", ");
        line.append(speed);
        line.append(" MB/s avg");
    }
    line
}

/// What is said before a verification, which is never by size alone.
pub fn starting_line(mode: VerifyMode) -> (line: String)
    requires
        mode != VerifyMode::Transfer,
    ensures
        line@ == "\nStarting "@ + (if mode == VerifyMode::Source {
            "source"@
        } else {
            "target"@
        }) + " verification..."@,
{
    let mut line = String::from_str("\nStarting ");
    if mode == VerifyMode::Source {
        line.append("source");
    } else {
        line.append("target");
    }
    line.append(" verification...");
    line
}

/// Whether a failure names only destinations that there are.
pub open spec fn names_known(failure: FailureView, destinations: nat) -> bool {
    match failure {
        FailureView::TargetsDisagree(j, _, p, _) => j < destinations && p < destinations,
        FailureView::HashMismatch(j, _, _) => j < destinations,
        _ => true,
    }
}

/// What is said of a failure of the file `name`, where the destinations are called `dests`.
pub open spec fn failure_text(
    index: nat,
    total: nat,
    name: Seq<char>,
    failure: FailureView,
    dests: Seq<Seq<char>>,
) -> Seq<char> {
    let start = tag(index, total) + "FAIL "@ + name;
    match failure {
        FailureView::SourceChanged(found, expected) => start + " (source changed: "@ + found
            + " vs inflight "@ + expected + ")"@,
        FailureView::SourceRead(error) => start + " (source read error: "@ + error.message + ")"@,
        FailureView::TargetsDisagree(j, hash, p, other) => start + " (targets disagree: "@
            + dests[j as int] + " = "@ + hash + " vs "@ + dests[p as int] + " = "@ + other + ")"@,
        FailureView::HashMismatch(j, hash, expected) => start + " -> "@ + dests[j as int]
            + " (hash mismatch: "@ + hash + " vs "@ + expected + ")"@,
        FailureView::DestRead(error) => start + " (dest read error: "@ + error.message + ")"@,
    }
}

/// The models of a list of texts.
pub open spec fn text_views(texts: Seq<String>) -> Seq<Seq<char>> {
    texts.map_values(|text: String| text@)
}

/// What is said of a failure of the file `name`, where the destinations are called `dests`.
pub fn failure_line(
    index: usize,
    total: usize,
    name: &str,
    failure: &FileFailure,
    dests: &Vec<String>,
) -> (line: String)
    requires
        index < total,
        names_known(failure@, dests@.len()),
    ensures
        line@ == failure_text(index as nat, total as nat, name@, failure@, text_views(dests@)),
        failure matches FileFailure::SourceChanged(found, expected) ==> line@ == "["@ + decimal(
            index as nat + 1,
        ) + "/"@ + decimal(total as nat) + "] "@
            + "FAIL "@ + name@ + " (source changed: "@ + found@ + " vs inflight "@ + expected@
            + ")"@,
        failure matches FileFailure::SourceRead(error) ==> line@ == "["@ + decimal(
            index as nat + 1,
        ) + "/"@ + decimal(total as nat) + "] "@
            + "FAIL "@ + name@ + " (source read error: "@ + error.message@ + ")"@,
        failure matches FileFailure::TargetsDisagree(j, hash, p, other) ==> line@ == "["@ + decimal(
            index as nat + 1,
        ) + "/"@ + decimal(total as nat) + "] "@
            + "FAIL "@ + name@ + " (targets disagree: "@ + dests@[*j as int]@ + " = "@ + hash@
            + " vs "@ + dests@[*p as int]@ + " = "@ + other@ + ")"@,
        failure matches FileFailure::HashMismatch(j, hash, expected) ==> line@ == "["@ + decimal(
            index as nat + 1,
        ) + "/"@ + decimal(total as nat) + "] "@
            + "FAIL "@ + name@ + " -> "@ + dests@[*j as int]@ + " (hash mismatch: "@ + hash@
            + " vs "@ + expected@ + ")"@,
        failure matches FileFailure::DestRead(error) ==> line@ == "["@ + decimal(
            index as nat + 1,
        ) + "/"@ + decimal(total as nat) + "] "@
            + "FAIL "@ + name@ + " (dest read error: "@ + error.message@ + ")"@,
{
    let mut line = tagged(index, total);
    line.append("FAIL ");
    line.append(name);
    match failure {
        FileFailure::SourceChanged(found, expected) => {
            line.append(" (source changed: ");
            line.append(found.as_str());
            line.append(" vs inflight ");
            line.append(expected.as_str());
        },
        FileFailure::SourceRead(error) => {
            line.append(" (source read error: ");
            line.append(error.message.as_str());
        },
        FileFailure::TargetsDisagree(j, hash, p, other) => {
            line.append(" (targets disagree: ");
            line.append(dests[*j].as_str());
            line.append(" = ");
            line.append(hash.as_str());
            line.append(" vs ");
            line.append(dests[*p].as_str());
            line.append(" = ");
            line.append(other.as_str());
        },
        FileFailure::HashMismatch(j, hash, expected) => {
            line.append(" -> ");
            line.append(dests[*j].as_str());
            line.append(" (hash mismatch: ");
            line.append(hash.as_str());
            line.append(" vs ");
            line.append(expected.as_str());
        },
        FileFailure::DestRead(error) => {
            line.append(" (dest read error: ");
            line.append(error.message.as_str());
        },
    }
    line.append(")");
    line
}

/// Whether an outcome names only destinations that there are.
pub open spec fn outcome_known(outcome: OutcomeView, destinations: nat) -> bool {
    outcome matches OutcomeView::Failed(failures) ==> forall|k: int|
        0 <= k < failures.len() ==> names_known(#[trigger] failures[k], destinations)
}

/// What is said of the outcome of verifying the file `name`, line by line.
pub open spec fn outcome_texts(
    index: nat,
    total: nat,
    name: Seq<char>,
    outcome: OutcomeView,
    dests: Seq<Seq<char>>,
) -> Seq<Seq<char>> {
    match outcome {
        OutcomeView::Verified(hash) => seq![
            tag(index, total) + "Verified "@ + name + "  "@ + hash,
        ],
        OutcomeView::Failed(failures) => failures.map_values(
            |failure: FailureView| failure_text(index, total, name, failure, dests),
        ),
        OutcomeView::WorkerExited => seq![
            tag(index, total) + "FAIL "@ + name
                + " (worker exited before completing verification)"@,
        ],
    }
}

/// What is said of the outcome of verifying the file `name`, line by line.
pub fn outcome_lines(
    index: usize,
    total: usize,
    name: &str,
    outcome: &FileOutcome,
    dests: &Vec<String>,
) -> (lines: Vec<String>)
    requires
        index < total,
        outcome_known(outcome@, dests@.len()),
    ensures
        text_views(lines@) == outcome_texts(
            index as nat,
            total as nat,
            name@,
            outcome@,
            text_views(dests@),
        ),
        outcome matches FileOutcome::Verified(hash) ==> lines@.len() == 1 && lines@[0]@ == "["@
            + decimal(index as nat + 1) + "/"@ + decimal(total as nat) + "] "@
            + "Verified "@ + name@ + "  "@ + hash@,
        outcome matches FileOutcome::Failed(failures) ==> lines@.len() == failures@.len()
            && forall|k: int|
            #![trigger lines@[k]]
            0 <= k < lines@.len() ==> lines@[k]@ == failure_text(
                index as nat,
                total as nat,
                name@,
                failures@[k]@,
                text_views(dests@),
            ),
        outcome is WorkerExited ==> lines@.len() == 1 && lines@[0]@ == "["@
            + decimal(index as nat + 1) + "/"@ + decimal(total as nat) + "] "@
            + "FAIL "@ + name@ + " (worker exited before completing verification)"@,
{
    let ghost wanted = outcome_texts(
        index as nat,
        total as nat,
        name@,
        outcome@,
        text_views(dests@),
    );
    let mut lines: Vec<String> = Vec::new();
    match outcome {
        FileOutcome::Verified(hash) => {
            let mut line = tagged(index, total);
            line.append("Verified ");
            line.append(name);
            line.append("  ");
            line.append(hash.as_str());
            lines.push(line);
        },
        FileOutcome::Failed(failures) => {
            let mut k: usize = 0;
            while k < failures.len()
                invariant
                    index < total,
                    *outcome == FileOutcome::Failed(*failures),
                    outcome_known(outcome@, dests@.len()),
                    wanted == outcome_texts(
                        index as nat,
                        total as nat,
                        name@,
                        outcome@,
                        text_views(dests@),
                    ),
                    k <= failures@.len(),
                    lines@.len() == k,
                    forall|i: int| 0 <= i < k ==> (#[trigger] lines@[i])@ == wanted[i],
                decreases failures@.len() - k,
            {
                assert(outcome@->Failed_0[k as int] == failures@[k as int]@);
                lines.push(failure_line(index, total, name, &failures[k], dests));
                k += 1;
            }
        },
        FileOutcome::WorkerExited => {
            let mut line = tagged(index, total);
            line.append("FAIL ");
            line.append(name);
            line.append(" (worker exited before completing verification)");
            lines.push(line);
        },
    }
    assert(text_views(lines@) =~= wanted);
    lines
}

/// What is said at the end of a verification that was not stopped. `speed` is in megabytes
/// per second.
pub fn verify_summary_line(verified: usize, total: usize, speed: &str) -> (line: String)
    ensures
        line@ == "\nVerification complete: "@ + decimal(verified as nat) + "/"@ + decimal(
            total as nat,
        ) + " OK, "@ + speed@ + " MB/s avg"@,
{
    let mut line = String::from_str("\nVerification complete: ");
    push_decimal(&mut line, verified as u64);
    line.append("/");
    push_decimal(&mut line, total as u64);
    line.append(" OK, ");
    line.append(speed);
    line.append(" MB/s avg");
    line
}

/// What is said of a file with a wrong size, where its path is shown as `path`.
pub open spec fn transfer_failure_text(
    failure: TransferFailureView,
    path: Seq<char>,
) -> Seq<char> {
    match failure {
        TransferFailureView::WrongSize(_, found, expected) => "FAIL "@ + path + " ("@ + decimal(
            found as nat,
        ) + " bytes, expected "@ + decimal(expected as nat) + ")"@,
        TransferFailureView::Unreadable(_, error) => "FAIL "@ + path + " ("@ + error.message
            + ")"@,
    }
}

/// What is said of a file with a wrong size, where its path is shown as `path`.
pub fn transfer_failure_line(failure: &TransferFailure, path: &str) -> (line: String)
    ensures
        line@ == transfer_failure_text(failure@, path@),
        failure matches TransferFailure::WrongSize(_, found, expected) ==> line@ == "FAIL "@ + path@
            + " ("@ + decimal(*found as nat) + " bytes, expected "@ + decimal(*expected as nat)
            + ")"@,
        failure matches TransferFailure::Unreadable(_, error) ==> line@ == "FAIL "@ + path@ + " ("@
            + error.message@ + ")"@,
{
    let mut line = String::from_str("FAIL ");
    line.append(path);
    line.append(" (");
    match failure {
        TransferFailure::WrongSize(_, found, expected) => {
            push_decimal(&mut line, *found);
            line.append(" bytes, expected ");
            push_decimal(&mut line, *expected);
        },
        TransferFailure::Unreadable(_, error) => {
            line.append(error.message.as_str());
        },
    }
    line.append(")");
    line
}

/// What is said at the end of a comparison of sizes.
pub fn transfer_summary_line(checked: usize) -> (line: String)
    ensures
        line@ == "Transfer check: "@ + decimal(checked as nat) + " file(s) size-compared"@,
{
    let mut line = String::from_str("Transfer check: ");
    push_decimal(&mut line, checked as u64);
    line.append(" file(s) size-compared");
    line
}

/// What is said at the very end.
pub fn completed_line(files: usize) -> (line: String)
    ensures
        line@ == "\nAll "@ + decimal(files as nat) + " file(s) completed."@,
{
    let mut line = String::from_str("\nAll ");
    push_decimal(&mut line, files as u64);
    line.append(" file(s) completed.");
    line
}

} // verus!
