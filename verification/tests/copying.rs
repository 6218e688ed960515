use cvv::discover::FileEntry;
use cvv::engine::{
    copy_all, settle, should_skip, total_bytes, update_due, CopyEnd, CopyRun, Settlement,
    QUEUE_DEPTH, UPDATE_INTERVAL,
};
use cvv::failure::{ErrorKind, IoError};
use cvv::path::{FilePath, PathPart};

fn path(text: &str) -> FilePath {
    FilePath::new(
        text.split('/')
            .filter(|name| !name.is_empty())
            .map(|name| PathPart::Normal(name.as_bytes().to_vec()))
            .collect(),
    )
}

fn show(path: &FilePath) -> String {
    let mut names = Vec::new();
    for part in &path.parts {
        match part {
            PathPart::Normal(bytes) => names.push(String::from_utf8(bytes.clone()).unwrap()),
            _ => names.push(String::from("?")),
        }
    }
    names.join("/")
}

fn shown(paths: &[FilePath]) -> Vec<String> {
    paths.iter().map(show).collect()
}

fn file(name: &str, size: u64) -> FileEntry {
    FileEntry { relative_path: path(name), absolute_path: path(&format!("src/{name}")), size }
}

fn run() -> CopyRun {
    copy_all(vec![file("a", 10), file("d/b", 20), file("c", 30)], vec![path("x"), path("y")])
}

#[test]
fn a_file_of_the_same_size_is_skipped() {
    assert!(should_skip(Some(5), 5));
    assert!(!should_skip(Some(4), 5));
    assert!(!should_skip(None, 5));
    assert!(should_skip(Some(0), 0));
}

#[test]
fn sizes_add_up() {
    assert_eq!(total_bytes(&Vec::new()), 0);
    assert_eq!(total_bytes(&vec![file("a", 1), file("b", 2)]), 3);
    assert_eq!(run().total_bytes(), 60);
    assert_eq!(QUEUE_DEPTH, 16);
}

#[test]
fn every_file_gets_a_result_in_order() {
    let mut run = run();
    let places = run.next(false).unwrap();
    assert_eq!(shown(&places), vec!["x/a", "y/a"]);
    assert_eq!(show(&run.current().absolute_path), "src/a");
    assert!(run.probed(&vec![Some(10), Some(10)]).is_none());
    assert_eq!(run.bytes_done(), 10);
    assert_eq!(run.copied_bytes(), 0);

    assert_eq!(shown(&run.next(false).unwrap()), vec!["x/d/b", "y/d/b"]);
    assert_eq!(shown(&run.probed(&vec![Some(20), Some(19)]).unwrap()), vec!["y/d/b"]);
    assert_eq!(run.copied(Ok((21, String::from("HASH")))), CopyEnd::Copied);
    assert_eq!(run.bytes_done(), 31);
    assert_eq!(run.copied_bytes(), 21);

    assert!(run.next(false).is_some());
    assert_eq!(shown(&run.probed(&vec![None, None]).unwrap()), vec!["x/c", "y/c"]);
    assert_eq!(run.copied(Err(IoError::new(ErrorKind::Other, "full"))), CopyEnd::Failed);
    assert_eq!(run.bytes_done(), 31);
    assert!(run.next(false).is_none());
    assert_eq!(run.counts(), (1, 1));

    let results = run.into_results();
    assert_eq!(results.len(), 3);
    assert_eq!(show(&results[0].relative_path), "a");
    assert!(results[0].success && results[0].skipped);
    assert_eq!(results[0].inflight_hash, "");
    assert_eq!(results[0].size, 10);
    assert_eq!(show(&results[1].source_path), "src/d/b");
    assert!(results[1].success && !results[1].skipped);
    assert_eq!(results[1].inflight_hash, "HASH");
    assert_eq!(results[1].size, 21);
    assert_eq!(results[1].error, None);
    assert!(!results[2].success && !results[2].skipped);
    assert_eq!(results[2].size, 30);
    assert_eq!(results[2].error, Some(String::from("full")));
}

#[test]
fn a_stop_before_a_file_ends_the_copying() {
    let mut run = run();
    assert!(run.next(true).is_none());
    assert_eq!(run.into_results().len(), 0);
}

#[test]
fn an_interrupted_copy_leaves_no_result() {
    let mut run = run();
    run.next(false);
    run.probed(&vec![None, Some(10)]);
    assert_eq!(run.copied(Err(IoError::aborted())), CopyEnd::Stopped);
    assert_eq!(run.counts(), (0, 0));
    assert_eq!(run.into_results().len(), 0);
}

#[test]
fn no_files_need_no_steps() {
    let mut run = copy_all(Vec::new(), vec![path("x")]);
    assert!(run.next(false).is_none());
}

fn settled(success: bool) -> Vec<String> {
    settle(success, &vec![path("x/a"), path("y/a")])
        .iter()
        .map(|step| match step {
            Settlement::Rename(from, to) => format!("{} -> {}", show(from), show(to)),
            Settlement::SetTimes(at) => format!("times {}", show(at)),
            Settlement::Remove(at) => format!("remove {}", show(at)),
        })
        .collect()
}

#[test]
fn a_copy_gets_its_name_once_it_is_complete() {
    assert_eq!(
        settled(true),
        vec!["x/a.tmp -> x/a", "times x/a", "y/a.tmp -> y/a", "times y/a"]
    );
}

#[test]
fn a_failed_copy_leaves_only_temporary_files_to_remove() {
    assert_eq!(settled(false), vec!["remove x/a.tmp", "remove y/a.tmp"]);
}

#[test]
fn progress_is_shown_ten_times_a_second_at_most() {
    assert_eq!(UPDATE_INTERVAL, 100);
    assert!(!update_due(0));
    assert!(!update_due(99));
    assert!(update_due(100));
    assert!(update_due(u64::MAX));
}

#[test]
fn a_second_copying_skips_everything() {
    let files = vec![file("a", 10), file("d/b", 20), file("c", 30)];
    let destinations = vec![path("x"), path("y")];
    let mut disk: Vec<(String, u64)> = vec![(String::from("x/a"), 10), (String::from("y/c"), 7)];
    for round in 0..2 {
        let mut run = copy_all(files.clone(), destinations.clone());
        let mut copies = 0;
        while let Some(places) = run.next(false) {
            let existing: Vec<Option<u64>> = shown(&places)
                .iter()
                .map(|at| disk.iter().find(|found| found.0 == *at).map(|found| found.1))
                .collect();
            let size = run.current().size;
            if let Some(dests) = run.probed(&existing) {
                for step in settle(true, &dests) {
                    if let Settlement::Rename(_, to) = step {
                        disk.retain(|found| found.0 != show(&to));
                        disk.push((show(&to), size));
                    }
                }
                copies += dests.len();
                run.copied(Ok((size, String::from("H"))));
            }
        }
        assert_eq!(copies, if round == 0 { 5 } else { 0 });
        assert_eq!(run.counts(), if round == 0 { (3, 0) } else { (0, 3) });
        let results = run.into_results();
        assert_eq!(results.len(), 3);
        assert!(results.iter().all(|result| result.success && result.error.is_none()));
        if round == 1 {
            assert!(results.iter().all(|result| result.skipped && result.inflight_hash.is_empty()));
        }
    }
}
