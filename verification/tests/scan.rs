//! The search for files, step by step.

use sem_embedded::collections::StringSet;
use sem_embedded::execution::{SemCancellationToken, SemExecutionContext, SemProgressReporter};
use sem_embedded::scan::{
    begin_scan, begin_scan_unless, relative_repo_path, scan_skip_dirs, should_skip_scan_dir,
    RepoScan, ScanAction, ScanEntry,
};
use sem_embedded::types::{
    SemDiscoveredFiles, SemEmbeddedOptions, SemErrorKind, SemProgressEvent, SemRepoScanOptions,
};

use std::sync::Mutex;

fn plain(text: &str) -> String {
    text.to_string()
}

fn entry(handle: usize, path: Option<&str>, name: &str, is_dir: bool) -> ScanEntry {
    ScanEntry {
        handle,
        relative: path.map(|path| path.to_string()),
        name: name.to_string(),
        is_dir,
    }
}

fn step(scan: &mut RepoScan) -> ScanAction {
    scan.next(false).expect("not cancelled")
}

fn finish(scan: RepoScan) -> SemDiscoveredFiles {
    scan.finish("/repo", &SemEmbeddedOptions::default(), &plain)
}

fn reasons(found: &SemDiscoveredFiles) -> Vec<(&str, &str)> {
    found.skipped.iter().map(|file| (file.path.as_str(), file.reason.as_str())).collect()
}

struct Notes(Mutex<Vec<SemProgressEvent>>);

impl SemProgressReporter for Notes {
    fn report(&self, event: SemProgressEvent) {
        self.0.lock().expect("notes").push(event);
    }
}

#[test]
fn names_that_are_left_out() {
    let mut options = SemRepoScanOptions::default();
    options.extra_skip_dirs = vec!["mine".to_string()];
    let names = scan_skip_dirs(&options);
    for name in [
        ".git", ".sem", "node_modules", "target", "dist", "build", "coverage", ".next", ".turbo",
        ".venv", "vendor", "mine",
    ] {
        assert!(should_skip_scan_dir(name, true, &names), "{}", name);
    }
    assert!(!should_skip_scan_dir("src", false, &names));
    assert!(!should_skip_scan_dir("", false, &names));
    assert!(should_skip_scan_dir(".cache", false, &names));
    assert!(!should_skip_scan_dir(".cache", true, &names));
    assert!(!should_skip_scan_dir("target", true, &StringSet::new()));
}

#[test]
fn paths_below_the_root_have_slashes() {
    assert_eq!(relative_repo_path(Some("a\\b/c")), Some("a/b/c".to_string()));
    assert_eq!(relative_repo_path(None), None);
}

#[test]
fn every_reason_to_leave_a_file_out_is_noted() {
    let mut scan = RepoScan::new(&SemRepoScanOptions::default(), 0);
    assert_eq!(step(&mut scan), ScanAction::ListDir { handle: 0 });
    scan.dir_listed(vec![
        entry(1, Some("no-metadata"), "no-metadata", false),
        entry(2, Some("large"), "large", false),
        entry(3, Some("binary"), "binary", false),
        entry(4, Some("unknown"), "unknown", false),
        entry(5, Some("fallback"), "fallback", false),
        entry(6, Some("code"), "code", false),
        entry(7, None, "odd", false),
        entry(8, Some("a/.b/c"), "c", false),
    ]);
    assert_eq!(step(&mut scan), ScanAction::ReadMetadata { handle: 1 });
    scan.metadata_unavailable("denied");
    assert_eq!(step(&mut scan), ScanAction::ReadMetadata { handle: 2 });
    assert_eq!(scan.measured(512_001), ScanAction::Resume);
    assert_eq!(step(&mut scan), ScanAction::ReadMetadata { handle: 3 });
    assert_eq!(scan.measured(512_000), ScanAction::ReadContent { handle: 3 });
    scan.content_unreadable();
    assert_eq!(step(&mut scan), ScanAction::ReadMetadata { handle: 4 });
    assert_eq!(scan.measured(1), ScanAction::ReadContent { handle: 4 });
    assert!(scan.content_read(None).is_none());
    assert_eq!(step(&mut scan), ScanAction::ReadMetadata { handle: 5 });
    assert_eq!(scan.measured(1), ScanAction::ReadContent { handle: 5 });
    assert!(scan.content_read(Some("fallback")).is_none());
    assert_eq!(step(&mut scan), ScanAction::ReadMetadata { handle: 6 });
    assert_eq!(scan.measured(0), ScanAction::ReadContent { handle: 6 });
    assert_eq!(
        scan.content_read(Some("code")),
        Some(SemProgressEvent {
            stage: "discover".to_string(),
            message: "Found semantic file".to_string(),
            completed: Some(1),
            total: Some(2_000),
        })
    );
    assert_eq!(step(&mut scan), ScanAction::Resume);
    assert_eq!(step(&mut scan), ScanAction::Resume);
    assert_eq!(step(&mut scan), ScanAction::Finish);
    let found = finish(scan);
    assert_eq!(found.files, vec!["code"]);
    assert_eq!(
        reasons(&found),
        vec![
            ("no-metadata", "metadata unavailable: denied"),
            ("large", "file too large"),
            ("binary", "not utf-8 text"),
            ("unknown", "no semantic parser"),
            ("fallback", "no semantic parser"),
        ]
    );
    assert!(found.warnings.is_empty());
    assert!(found.cache_key.ends_with("scan:2000:512000:12:false\0code"));
}

#[test]
fn directories_are_searched_one_after_the_other() {
    let mut options = SemRepoScanOptions::default();
    options.max_depth = 1;
    let mut scan = RepoScan::new(&options, 0);
    assert_eq!(step(&mut scan), ScanAction::ListDir { handle: 0 });
    scan.dir_listed(vec![
        entry(1, Some("b"), "b", true),
        entry(2, Some("a"), "a", true),
        entry(3, Some("target"), "target", true),
    ]);
    for _ in 0..3 {
        assert_eq!(step(&mut scan), ScanAction::Resume);
    }
    assert_eq!(step(&mut scan), ScanAction::ListDir { handle: 1 });
    scan.dir_listed(vec![entry(4, Some("b/deep"), "deep", true)]);
    assert_eq!(step(&mut scan), ScanAction::Resume);
    assert_eq!(step(&mut scan), ScanAction::ListDir { handle: 2 });
    scan.dir_unreadable("/repo/a", "denied");
    assert_eq!(step(&mut scan), ScanAction::Resume);
    assert_eq!(step(&mut scan), ScanAction::Finish);
    let found = finish(scan);
    assert_eq!(found.warnings, vec!["Could not read /repo/a: denied"]);
    assert!(found.files.is_empty() && found.skipped.is_empty());
}

#[test]
fn no_more_files_are_found_than_asked_for() {
    let mut options = SemRepoScanOptions::default();
    options.max_files = 1;
    let mut scan = RepoScan::new(&options, 0);
    step(&mut scan);
    scan.dir_listed(vec![
        entry(1, Some("z"), "z", false),
        entry(2, Some(".y"), ".y", false),
    ]);
    step(&mut scan);
    scan.measured(0);
    scan.content_read(Some("code"));
    assert_eq!(step(&mut scan), ScanAction::Resume);
    let found = finish(scan);
    assert_eq!(found.files, vec!["z"]);
    assert_eq!(reasons(&found), vec![(".y", "max_files reached")]);
}

#[test]
fn a_cancelled_search_stops_where_there_is_something_left() {
    let mut scan = RepoScan::new(&SemRepoScanOptions::default(), 0);
    let error = scan.next(true).err().expect("cancelled");
    assert_eq!(error.kind, SemErrorKind::Cancelled);
    assert_eq!(step(&mut scan), ScanAction::ListDir { handle: 0 });
    scan.dir_listed(vec![entry(1, None, "", false)]);
    assert!(scan.next(true).is_err());
    assert_eq!(step(&mut scan), ScanAction::Resume);
    assert_eq!(scan.next(true).expect("nothing is left"), ScanAction::Finish);
}

struct Stopped;

impl SemCancellationToken for Stopped {
    fn is_cancelled(&self) -> bool {
        true
    }
}

#[test]
fn a_cancelled_search_does_not_look_at_its_root() {
    let options = SemRepoScanOptions::default();
    let notes = Notes(Mutex::new(Vec::new()));
    let stopped = SemExecutionContext { cancellation: Some(&Stopped), progress: Some(&notes) };
    for root_is_dir in [false, true] {
        let error = begin_scan("", 0, root_is_dir, &options, &stopped).err().expect("cancelled");
        assert_eq!(error.kind, SemErrorKind::Cancelled);
        assert_eq!(error.message, "operation cancelled");
        let error =
            begin_scan_unless(true, "", 0, root_is_dir, &options).err().expect("cancelled");
        assert_eq!(error.kind, SemErrorKind::Cancelled);
    }
    assert!(notes.0.lock().expect("notes").is_empty());
    let error = begin_scan_unless(false, "/no", 0, false, &options).err().expect("no directory");
    assert_eq!(error.kind, SemErrorKind::InvalidInput);
    let mut scan = begin_scan_unless(false, "/repo", 7, true, &options).ok().expect("a search");
    assert_eq!(step(&mut scan), ScanAction::ListDir { handle: 7 });
}

#[test]
fn a_search_begins_at_a_directory() {
    let options = SemRepoScanOptions::default();
    let error = begin_scan("/no", 0, false, &options, &SemExecutionContext::default())
        .err()
        .expect("no directory");
    assert_eq!(error.kind, SemErrorKind::InvalidInput);
    assert_eq!(error.message, "root is not a directory: /no");
    let notes = Notes(Mutex::new(Vec::new()));
    let execution = SemExecutionContext { cancellation: None, progress: Some(&notes) };
    assert!(begin_scan("/repo", 0, true, &options, &execution).is_ok());
    assert_eq!(
        *notes.0.lock().expect("notes"),
        vec![SemProgressEvent {
            stage: "discover".to_string(),
            message: "Scanning /repo".to_string(),
            completed: Some(0),
            total: None,
        }]
    );
}
