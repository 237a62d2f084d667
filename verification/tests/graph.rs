//! Graphs, targets, references and memory graphs.

use std::sync::atomic::{AtomicUsize, Ordering};
use std::sync::Mutex;

use sem_embedded::collections::StringMap;
use sem_embedded::diff_impact::{
    build_diff_impact_context, build_diff_impact_context_with_execution, can_count_references,
    diff_impact_query, references_to_entity_name,
};
use sem_embedded::execution::{
    SemCancellationToken, SemExecutionContext, SemProgressReporter,
};
use sem_embedded::focus::{resolve_focus_target, resolve_focus_target_with_execution};
use sem_embedded::graph::{
    build_impact_context_from_graph, build_repo_graph, build_repo_graph_with_execution,
    build_repo_impact_context, build_repo_impact_context_result,
    build_repo_impact_context_with_execution, graph_query, resolve_target_entity_result,
};
use sem_embedded::memory::{
    begin_memory_graph, begin_memory_graph_unless, build_memory_graph,
    build_memory_graph_with_execution, memory_file_paths, validate_memory_files, PathStyle,
};
use sem_embedded::model::{
    ChangeType, DiffResult, EntityGraph, EntityInfo, EntityRef, FileStatus, ReachedEntity,
    SemGraphAnswers, SemanticChange, SemanticEntity,
};
use sem_embedded::parses::{
    files_to_parse, registry_for_options, ParserRegistry, RegistryConfig, SemParse,
};
use sem_embedded::types::{
    SemEmbeddedOptions, SemEntityTarget, SemError, SemErrorKind, SemFileChange, SemFileInput,
    SemFocusTarget, SemGraphSnapshot, SemHunk, SemHunkTarget, SemImpactRequest, SemLineRange,
    SemLocationTarget, SemProgressEvent, SemSide,
};

fn plain(text: &str) -> String {
    text.to_string()
}

fn info(id: &str, name: &str, path: &str) -> EntityInfo {
    EntityInfo { id: id.to_string(), name: name.to_string(), file_path: path.to_string() }
}

fn graph(infos: &[EntityInfo]) -> EntityGraph {
    let mut entities = StringMap::new();
    for info in infos {
        entities.insert(info.id.clone(), info.clone());
    }
    EntityGraph {
        entities,
        edges: vec![EntityRef {
            from_entity: "from".to_string(),
            to_entity: "to".to_string(),
            ref_type: "calls".to_string(),
        }],
    }
}

fn entity(id: &str, name: &str, path: &str, from: usize, to: usize, content: &str) -> SemanticEntity {
    SemanticEntity {
        id: id.to_string(),
        file_path: path.to_string(),
        entity_type: "function".to_string(),
        name: name.to_string(),
        content: content.to_string(),
        content_hash: content.to_string(),
        start_line: from,
        end_line: to,
    }
}

fn snapshot(infos: &[EntityInfo], entities: Vec<SemanticEntity>) -> SemGraphSnapshot {
    build_repo_graph(
        "/repo",
        &["b.rs".to_string(), "a.rs".to_string()],
        &SemEmbeddedOptions::default(),
        graph(infos),
        entities,
        &plain,
    )
    .expect("snapshot")
}

fn answers() -> SemGraphAnswers {
    SemGraphAnswers {
        dependencies: vec![info("d", "dep", "d.rs")],
        dependents: vec![info("e", "user", "e.rs")],
        impact: vec![ReachedEntity { entity: info("e", "user", "e.rs"), depth: 2 }],
        tests: vec![info("t", "test", "t.rs")],
        context: Vec::new(),
    }
}

fn error_of<T>(outcome: Result<T, SemError>) -> (SemErrorKind, String) {
    let error = outcome.err().expect("an error");
    (error.kind, error.message)
}

struct Stopped;

impl SemCancellationToken for Stopped {
    fn is_cancelled(&self) -> bool {
        true
    }
}

/// Says that the work is cancelled once it was asked some times.
struct StopsAfter {
    times: usize,
    asked: AtomicUsize,
}

impl SemCancellationToken for StopsAfter {
    fn is_cancelled(&self) -> bool {
        self.asked.fetch_add(1, Ordering::SeqCst) >= self.times
    }
}

/// Has work done that asks `times` times: it fails just if it is cancelled at
/// one of them.
fn asks<T>(times: usize, work: impl Fn(&SemExecutionContext<'_>) -> Result<T, SemError>) {
    for stop in 0..=times {
        let token = StopsAfter { times: stop, asked: AtomicUsize::new(0) };
        let execution = SemExecutionContext { cancellation: Some(&token), progress: None };
        let outcome = work(&execution);
        if stop < times {
            assert_eq!(error_of(outcome).0, SemErrorKind::Cancelled);
            assert_eq!(token.asked.load(Ordering::SeqCst), stop + 1);
        } else {
            assert!(outcome.is_ok());
            assert_eq!(token.asked.load(Ordering::SeqCst), times);
        }
    }
}

struct Notes(Mutex<Vec<SemProgressEvent>>);

impl SemProgressReporter for Notes {
    fn report(&self, event: SemProgressEvent) {
        self.0.lock().expect("notes").push(event);
    }
}

fn noted(stage: &str, message: &str, completed: usize, total: usize) -> SemProgressEvent {
    SemProgressEvent {
        stage: stage.to_string(),
        message: message.to_string(),
        completed: Some(completed),
        total: Some(total),
    }
}

// ---------------------------------------------------------------------------
// Targets

#[test]
fn a_target_is_resolved_by_id_or_by_a_name_that_is_unique() {
    let graph = graph(&[
        info("1", "f", "a.rs"),
        info("2", "f", "b.rs"),
        info("3", "g", "a.rs"),
    ]);
    let found = resolve_target_entity_result(&graph, &SemEntityTarget::by_id("2")).expect("by id");
    assert_eq!(found.file_path, "b.rs");
    let found = resolve_target_entity_result(&graph, &SemEntityTarget::by_name("g")).expect("g");
    assert_eq!(found.id, "3");
    let mut target = SemEntityTarget::by_name("f");
    assert_eq!(
        error_of(resolve_target_entity_result(&graph, &target)),
        (
            SemErrorKind::AmbiguousTarget,
            "entity name is ambiguous: f matched 2 entities".to_string()
        )
    );
    target.file_path = Some("a.rs".to_string());
    assert_eq!(resolve_target_entity_result(&graph, &target).expect("f in a.rs").id, "1");
    target.file_path = Some("c.rs".to_string());
    assert_eq!(
        error_of(resolve_target_entity_result(&graph, &target)),
        (SemErrorKind::NotFound, "entity name not found: f".to_string())
    );
    target.entity_id = Some("9".to_string());
    assert_eq!(
        error_of(resolve_target_entity_result(&graph, &target)),
        (SemErrorKind::NotFound, "entity id not found: 9".to_string())
    );
    assert_eq!(
        error_of(resolve_target_entity_result(&graph, &SemEntityTarget::default())),
        (
            SemErrorKind::InvalidInput,
            "target must include entity_id or entity_name".to_string()
        )
    );
}

#[test]
fn errors_are_told_in_words() {
    let error = SemError::new(SemErrorKind::NotFound, "nothing there");
    assert_eq!(error.to_string(), "not found: nothing there");
    let words = build_repo_impact_context(
        "/repo",
        &[],
        &SemEntityTarget::by_name("f"),
        &SemImpactRequest::default(),
        &SemEmbeddedOptions::default(),
        graph(&[]),
        Vec::new(),
        &answers(),
        &plain,
    )
    .err()
    .expect("an error");
    assert_eq!(words, "not found: entity name not found: f");
}

// ---------------------------------------------------------------------------
// Snapshots

#[test]
fn a_snapshot_sorts_its_files() {
    let snapshot = snapshot(&[info("1", "f", "a.rs")], Vec::new());
    assert_eq!(snapshot.file_paths, vec!["a.rs", "b.rs"]);
    assert!(snapshot.warnings.is_empty());
    assert!(snapshot.cache_key.contains("repo-graph\0/repo\0"));
}

#[test]
fn a_snapshot_survives_storage() {
    let infos = [info("2", "g", "b.rs"), info("1", "f", "a.rs"), info("3", "h", "c.rs")];
    let before = snapshot(&infos, vec![entity("1", "f", "a.rs", 1, 2, "x")]);
    let record = before.to_cache_record();
    let ids: Vec<&str> = record.entity_infos.iter().map(|info| info.id.as_str()).collect();
    assert_eq!(ids, vec!["1", "2", "3"]);
    let after = SemGraphSnapshot::from_cache_record(record.clone()).expect("the same version");
    assert_eq!(after.cache_key, before.cache_key);
    assert_eq!(after.file_paths, before.file_paths);
    assert_eq!(after.graph.entities.len(), 3);
    for info in &infos {
        let found = after.graph.entities.get(&info.id).expect("an entity");
        assert_eq!(found.name, info.name);
        assert_eq!(found.file_path, info.file_path);
    }
    assert_eq!(after.graph.edges.len(), 1);
    assert_eq!(after.entities.len(), 1);
    let again = after.to_cache_record();
    assert_eq!(again.entity_infos.len(), record.entity_infos.len());
}

#[test]
fn a_record_of_another_version_is_refused() {
    let mut record = snapshot(&[], Vec::new()).to_cache_record();
    record.api_version = "sem-embedded-v0".to_string();
    assert_eq!(
        error_of(SemGraphSnapshot::from_cache_record(record)),
        (
            SemErrorKind::InvalidInput,
            "unsupported graph cache api version: sem-embedded-v0".to_string()
        )
    );
}

#[test]
fn building_a_graph_is_reported_and_can_be_stopped() {
    let notes = Notes(Mutex::new(Vec::new()));
    let paths = ["a.rs".to_string(), "b.rs".to_string()];
    let options = SemEmbeddedOptions::default();
    build_repo_graph_with_execution(
        "/repo",
        &paths,
        &options,
        &SemExecutionContext { cancellation: None, progress: Some(&notes) },
        graph(&[]),
        Vec::new(),
        &plain,
    )
    .expect("a graph");
    assert_eq!(
        *notes.0.lock().expect("notes"),
        vec![
            noted("graph", "Building semantic graph for 2 files", 0, 2),
            noted("graph", "Semantic graph ready", 2, 2),
        ]
    );
    let stopped = SemExecutionContext { cancellation: Some(&Stopped), progress: None };
    assert_eq!(
        error_of(build_repo_graph_with_execution(
            "/repo", &paths, &options, &stopped, graph(&[]), Vec::new(), &plain,
        )),
        (SemErrorKind::Cancelled, "operation cancelled".to_string())
    );
    assert_eq!(
        error_of(build_repo_impact_context_with_execution(
            "/repo",
            &paths,
            &SemEntityTarget::by_id("1"),
            &SemImpactRequest::default(),
            &options,
            &stopped,
            graph(&[]),
            Vec::new(),
            &answers(),
            &plain,
        ))
        .0,
        SemErrorKind::Cancelled
    );
}

#[test]
fn an_impact_context_holds_what_the_graph_answered() {
    let snapshot = snapshot(&[info("1", "f", "a.rs")], Vec::new());
    let target = SemEntityTarget::by_name("f");
    let request = SemImpactRequest { token_budget: 9, max_depth: 3 };
    let query = graph_query(&snapshot, &target, &request).expect("a query");
    assert_eq!((query.entity_id.as_str(), query.max_depth, query.token_budget), ("1", 3, 9));
    assert_eq!(
        error_of(graph_query(&snapshot, &SemEntityTarget::by_id("9"), &request)).0,
        SemErrorKind::NotFound
    );
    let context =
        build_impact_context_from_graph(&snapshot, &target, &request, &answers(), &plain)
            .expect("a context");
    assert_eq!(context.entity.id, "1");
    assert_eq!(context.dependencies[0].name, "dep");
    assert_eq!(context.dependents[0].name, "user");
    assert_eq!(context.impact[0].depth, 2);
    assert_eq!(context.impact[0].entity.id, "e");
    assert_eq!(context.tests[0].id, "t");
    assert!(context.cache_key.ends_with("files:a.rs,b.rs:target::f::request:9:3"));
    let by_repo = build_repo_impact_context_result(
        "/repo",
        &["a.rs".to_string(), "b.rs".to_string()],
        &target,
        &request,
        &SemEmbeddedOptions::default(),
        graph(&[info("1", "f", "a.rs")]),
        Vec::new(),
        &answers(),
        &plain,
    )
    .expect("a context");
    assert_eq!(by_repo.cache_key, context.cache_key);
}

// ---------------------------------------------------------------------------
// References

#[test]
fn references_are_sorted_and_limited() {
    let mut infos = Vec::new();
    let mut entities = Vec::new();
    for i in 0..40 {
        let id = format!("{:02}", 39 - i);
        infos.push(info(&id, "user", "a.rs"));
        entities.push(entity(&id, "user", "a.rs", 1, 1, "x;\n   call gone(1);  \n"));
    }
    infos.push(info("self", "gone", "a.rs"));
    entities.push(entity("self", "gone", "a.rs", 1, 1, "gone"));
    entities.push(entity("no-node", "user", "a.rs", 1, 1, "gone"));
    infos.push(info("part", "user", "a.rs"));
    entities.push(entity("part", "user", "a.rs", 1, 1, "agone gone2 _gone"));
    let snapshot = snapshot(&infos, entities);
    let request = |max_depth| SemImpactRequest { token_budget: 0, max_depth };
    let found = references_to_entity_name(&snapshot, "gone", &request(1));
    assert_eq!(found.len(), 32);
    assert_eq!(found[0].entity.id, "00");
    assert_eq!(found[31].entity.id, "31");
    assert_eq!(found[0].snippet.as_deref(), Some("call gone(1);"));
    assert_eq!(references_to_entity_name(&snapshot, "gone", &request(0)).len(), 32);
    assert_eq!(references_to_entity_name(&snapshot, "gone", &request(2)).len(), 40);
}

// ---------------------------------------------------------------------------
// Focus

fn nested_changes() -> Vec<SemFileChange> {
    vec![SemFileChange {
        file_path: "new.rs".to_string(),
        status: FileStatus::Renamed,
        old_file_path: Some("old.rs".to_string()),
        before_content: Some("before".to_string()),
        after_content: Some("after".to_string()),
        hunks: vec![SemHunk {
            hunk_id: None,
            hunk_index: 3,
            hunk_header: Some("@@".to_string()),
            old_range: Some(SemLineRange { start_line: 2, end_line: 4 }),
            new_range: Some(SemLineRange { start_line: 2, end_line: 4 }),
        }],
    }]
}

fn nested_registry() -> ParserRegistry {
    ParserRegistry {
        parses: vec![
            SemParse {
                file_path: "old.rs".to_string(),
                content: "before".to_string(),
                entities: vec![
                    entity("gone", "gone", "old.rs", 1, 3, "g"),
                    entity("outer", "outer", "old.rs", 1, 10, "o"),
                ],
            },
            SemParse {
                file_path: "new.rs".to_string(),
                content: "after".to_string(),
                entities: vec![
                    entity("outer", "outer", "new.rs", 1, 10, "O"),
                    entity("inner", "inner", "new.rs", 2, 4, "i"),
                    entity("twin", "twin", "new.rs", 3, 12, "t"),
                ],
            },
        ],
    }
}

fn nested_diff() -> DiffResult {
    let change = |id: &str, kind: ChangeType| SemanticChange {
        entity_id: id.to_string(),
        change_type: kind,
        entity_type: "function".to_string(),
        entity_name: id.to_string(),
        old_entity_name: None,
        file_path: "new.rs".to_string(),
        old_file_path: Some("old.rs".to_string()),
        before_content: None,
        after_content: None,
    };
    DiffResult {
        changes: vec![
            change("outer", ChangeType::Modified),
            change("gone", ChangeType::Deleted),
            change("elsewhere", ChangeType::Added),
        ],
        file_count: 1,
        added_count: 1,
        modified_count: 1,
        deleted_count: 1,
        moved_count: 0,
        renamed_count: 0,
        reordered_count: 0,
        orphan_count: 0,
    }
}

#[test]
fn contents_to_parse_stand_under_the_paths_they_had() {
    let files = files_to_parse(&nested_changes());
    let pairs: Vec<(&str, &str)> =
        files.iter().map(|file| (file.file_path.as_str(), file.content.as_str())).collect();
    assert_eq!(pairs, vec![("old.rs", "before"), ("new.rs", "after")]);
    assert!(nested_registry().extract_entities("old.rs", "after").is_empty());
}

#[test]
fn the_widest_entity_is_in_focus_and_the_last_of_equals() {
    let target = SemFocusTarget {
        location: Some(SemLocationTarget {
            file_path: "new.rs".to_string(),
            line: 3,
            side: SemSide::After,
        }),
        hunk: Some(SemHunkTarget {
            file_path: "new.rs".to_string(),
            old_file_path: None,
            hunk_index: None,
            hunk_header: None,
            side: SemSide::After,
            old_range: None,
            new_range: Some(SemLineRange { start_line: 1, end_line: 2 }),
        }),
        entity: None,
    };
    let focus = resolve_focus_target(
        &nested_changes(),
        &target,
        &SemEmbeddedOptions::default(),
        &nested_registry(),
        &nested_diff(),
        &plain,
    )
    .expect("focus");
    let names: Vec<&str> =
        focus.overlapping_entities.iter().map(|found| found.entity.name.as_str()).collect();
    assert_eq!(names, vec!["outer", "inner", "twin"]);
    let found = focus.target_entity.expect("an entity");
    assert_eq!(found.entity.name, "twin");
    assert_eq!((found.range.start_line, found.range.end_line), (3, 12));
    assert!(matches!(found.side, SemSide::After));
}

#[test]
fn a_hunk_is_looked_at_on_its_side() {
    let hunk = SemHunkTarget {
        file_path: "new.rs".to_string(),
        old_file_path: Some("old.rs".to_string()),
        hunk_index: Some(3),
        hunk_header: Some("@@".to_string()),
        side: SemSide::Before,
        old_range: Some(SemLineRange { start_line: 2, end_line: 2 }),
        new_range: None,
    };
    let resolve = |hunk: SemHunkTarget| {
        resolve_focus_target(
            &nested_changes(),
            &SemFocusTarget { entity: None, location: None, hunk: Some(hunk) },
            &SemEmbeddedOptions::default(),
            &nested_registry(),
            &nested_diff(),
            &plain,
        )
        .expect("focus")
    };
    let focus = resolve(hunk.clone());
    let names: Vec<&str> =
        focus.overlapping_entities.iter().map(|found| found.entity.name.as_str()).collect();
    assert_eq!(names, vec!["gone", "outer"]);
    let ids: Vec<&str> =
        focus.matching_changes.iter().map(|found| found.change.entity_id.as_str()).collect();
    assert_eq!(ids, vec!["outer", "gone"]);

    let mut nowhere = hunk;
    nowhere.side = SemSide::After;
    let focus = resolve(nowhere.clone());
    assert!(focus.overlapping_entities.is_empty());
    assert!(focus.target_entity.is_none());
    assert_eq!(focus.matching_changes.len(), 2);
    nowhere.hunk_index = Some(4);
    assert!(resolve(nowhere.clone()).matching_changes.is_empty());
    nowhere.hunk_index = None;
    nowhere.hunk_header = Some("other".to_string());
    assert!(resolve(nowhere).matching_changes.is_empty());
}

#[test]
fn a_named_entity_is_sought_after_the_change_first() {
    let resolve = |target: SemEntityTarget| {
        resolve_focus_target(
            &nested_changes(),
            &SemFocusTarget { entity: Some(target), location: None, hunk: None },
            &SemEmbeddedOptions::default(),
            &nested_registry(),
            &nested_diff(),
            &plain,
        )
        .expect("focus")
    };
    let focus = resolve(SemEntityTarget::by_name("outer"));
    assert!(matches!(focus.target_entity.expect("outer").side, SemSide::After));
    let mut old = SemEntityTarget::by_name("outer");
    old.file_path = Some("old.rs".to_string());
    assert!(matches!(resolve(old).target_entity.expect("outer").side, SemSide::Before));
    assert!(resolve(SemEntityTarget::by_id("nothing")).target_entity.is_none());
    let stopped = resolve_focus_target_with_execution(
        &nested_changes(),
        &SemFocusTarget::default(),
        &SemEmbeddedOptions::default(),
        &SemExecutionContext { cancellation: Some(&Stopped), progress: None },
        &nested_registry(),
        &nested_diff(),
        &plain,
    );
    assert_eq!(error_of(stopped).0, SemErrorKind::Cancelled);
}

#[test]
fn diff_impact_tells_context_nothing_or_fails() {
    let build = |target: SemFocusTarget, infos: &[EntityInfo]| {
        build_diff_impact_context(
            "/repo",
            &["new.rs".to_string()],
            &nested_changes(),
            &target,
            &SemImpactRequest::default(),
            &SemEmbeddedOptions::default(),
            &nested_registry(),
            &nested_diff(),
            graph(infos),
            Vec::new(),
            &answers(),
            &plain,
        )
    };
    let named = |name: &str| SemFocusTarget {
        entity: Some(SemEntityTarget::by_name(name)),
        ..SemFocusTarget::default()
    };
    let nodes = [info("inner", "inner", "new.rs")];

    let context = build(named("inner"), &nodes).expect("a context");
    assert_eq!(context.repo_context.expect("an impact context").entity.id, "inner");
    assert!(context.warnings.is_empty() && context.deleted_entity.is_none());

    let context = build(SemFocusTarget::default(), &nodes).expect("a context");
    assert!(context.repo_context.is_none());
    assert_eq!(context.warnings, vec!["No focus entity resolved for diff impact context."]);

    let context = build(named("gone"), &nodes).expect("a context");
    assert_eq!(context.deleted_entity.expect("it is gone").entity.id, "gone");

    assert_eq!(
        error_of(build(named("twin"), &nodes)),
        (SemErrorKind::NotFound, "entity id not found: twin".to_string())
    );
}

#[test]
fn the_graph_is_asked_about_the_entity_in_focus() {
    let snapshot = snapshot(&[info("inner", "inner", "new.rs")], Vec::new());
    let query = |name: &str| {
        let focus = resolve_focus_target(
            &nested_changes(),
            &SemFocusTarget {
                entity: Some(SemEntityTarget::by_name(name)),
                ..SemFocusTarget::default()
            },
            &SemEmbeddedOptions::default(),
            &nested_registry(),
            &nested_diff(),
            &plain,
        )
        .expect("focus");
        diff_impact_query(&focus, &snapshot, &SemImpactRequest::default())
    };
    let asked = query("inner").expect("a query");
    assert_eq!((asked.entity_id.as_str(), asked.max_depth, asked.token_budget), ("inner", 2, 4096));
    assert!(query("gone").is_none());
    assert!(query("nothing").is_none());
}

#[test]
fn references_are_counted_only_where_an_entity_is_gone() {
    let snapshot = snapshot(&[info("inner", "inner", "new.rs")], Vec::new());
    let can = |name: &str, max_depth: usize| {
        let focus = resolve_focus_target(
            &nested_changes(),
            &SemFocusTarget {
                entity: Some(SemEntityTarget::by_name(name)),
                ..SemFocusTarget::default()
            },
            &SemEmbeddedOptions::default(),
            &nested_registry(),
            &nested_diff(),
            &plain,
        )
        .expect("focus");
        can_count_references(&focus, &snapshot, &SemImpactRequest { token_budget: 1, max_depth })
    };
    let most = usize::MAX / 32;
    assert!(can("gone", 0) && can("gone", most));
    assert!(!can("gone", most + 1));
    assert!(can("inner", usize::MAX) && can("twin", usize::MAX) && can("nothing", usize::MAX));
}

// ---------------------------------------------------------------------------
// Memory graphs

fn file(path: &str) -> SemFileInput {
    SemFileInput { file_path: path.to_string(), content: String::new() }
}

#[test]
fn memory_files_stay_in_their_directory() {
    for path in ["a.rs", "a/b.rs", "./a.rs", "a/./b.rs", "..a/b", "a..b", "", "a/...", "a//b"] {
        assert!(validate_memory_files(&[file(path)], PathStyle::Unix).is_ok(), "{}", path);
    }
    for path in ["/a.rs", "../a.rs", "a/../b.rs", "a/..", "..", "/"] {
        assert_eq!(
            error_of(validate_memory_files(
                &[file("ok.rs"), file(path), file("/later")],
                PathStyle::Unix,
            )),
            (
                SemErrorKind::InvalidInput,
                format!("memory graph file path must be relative: {}", path)
            )
        );
    }
}

#[test]
fn memory_files_stay_in_their_directory_and_on_their_drive() {
    for path in [
        "a.rs", "a/b.rs", "a\\b.rs", ".\\a", "..a\\b", "a\\...", "", "1:x", "ab:x", ":x", "é:x",
    ] {
        assert!(validate_memory_files(&[file(path)], PathStyle::Windows).is_ok(), "{}", path);
    }
    for path in [
        "..\\x", "C:x", "z:", "C:\\x", "\\x", "/x", "\\\\server\\share\\x", "\\\\?\\C:\\x", "a\\..\\b",
        "a/..\\b", "a/../b", "..",
    ] {
        assert_eq!(
            error_of(validate_memory_files(&[file("a\\b"), file(path)], PathStyle::Windows)),
            (
                SemErrorKind::InvalidInput,
                format!("memory graph file path must be relative: {}", path)
            )
        );
    }
    for path in ["..\\x", "C:x", "\\x", "a\\..\\b"] {
        assert!(validate_memory_files(&[file(path)], PathStyle::Unix).is_ok(), "{}", path);
    }
}

#[test]
fn a_memory_graph_tells_nothing_of_its_directory() {
    let files = [file("b.rs"), file("a.rs")];
    let options = SemEmbeddedOptions::default();
    let build = |root: &str| {
        build_memory_graph(
            root, &files, PathStyle::Unix, &options, graph(&[]), Vec::new(), &plain,
        )
        .expect("a graph")
    };
    let one = build("/one");
    assert_eq!(one.cache_key, build("/two").cache_key);
    assert_eq!(one.file_paths, vec!["a.rs", "b.rs"]);
    assert_eq!(memory_file_paths(&files), vec!["b.rs", "a.rs"]);
    let refused = build_memory_graph(
        "/one",
        &[file("/x")],
        PathStyle::Unix,
        &options,
        graph(&[]),
        Vec::new(),
        &plain,
    );
    assert_eq!(error_of(refused).0, SemErrorKind::InvalidInput);
}

#[test]
fn writing_a_memory_graph_is_reported_and_can_be_stopped() {
    let files = [file("a.rs"), file("b.rs")];
    let options = SemEmbeddedOptions::default();
    let notes = Notes(Mutex::new(Vec::new()));
    build_memory_graph_with_execution(
        "/one",
        &files,
        PathStyle::Unix,
        &options,
        &SemExecutionContext { cancellation: None, progress: Some(&notes) },
        graph(&[]),
        Vec::new(),
        &plain,
    )
    .expect("a graph");
    assert_eq!(
        *notes.0.lock().expect("notes"),
        vec![
            noted("graphOverlay", "Wrote in-memory graph overlay", 1, 2),
            noted("graphOverlay", "Wrote in-memory graph overlay", 2, 2),
            noted("graph", "Building semantic graph for 2 files", 0, 2),
            noted("graph", "Semantic graph ready", 2, 2),
        ]
    );
    let stopped = build_memory_graph_with_execution(
        "/one",
        &files,
        PathStyle::Unix,
        &options,
        &SemExecutionContext { cancellation: Some(&Stopped), progress: None },
        graph(&[]),
        Vec::new(),
        &plain,
    );
    assert_eq!(error_of(stopped).0, SemErrorKind::Cancelled);
}

#[test]
fn a_cancelled_memory_graph_does_not_look_at_its_paths() {
    let stopped = SemExecutionContext { cancellation: Some(&Stopped), progress: None };
    for path in ["a.rs", "/x"] {
        let files = [file(path)];
        assert_eq!(
            error_of(begin_memory_graph(&files, PathStyle::Unix, &stopped)),
            (SemErrorKind::Cancelled, "operation cancelled".to_string())
        );
        assert_eq!(
            error_of(begin_memory_graph_unless(true, &files, PathStyle::Unix)).0,
            SemErrorKind::Cancelled
        );
        let options = SemEmbeddedOptions::default();
        let outcome = build_memory_graph_with_execution(
            "/one",
            &files,
            PathStyle::Unix,
            &options,
            &stopped,
            graph(&[]),
            Vec::new(),
            &plain,
        );
        assert_eq!(error_of(outcome).0, SemErrorKind::Cancelled);
    }
    assert_eq!(
        error_of(begin_memory_graph_unless(
            false,
            &[file("a.rs"), file("/x")],
            PathStyle::Unix,
        ))
        .1,
        "memory graph file path must be relative: /x"
    );
    assert!(begin_memory_graph_unless(false, &[file("a.rs")], PathStyle::Unix).is_ok());
}

#[test]
fn work_can_be_cancelled_at_every_step() {
    let options = SemEmbeddedOptions::default();
    let paths = ["new.rs".to_string()];
    let nodes = [info("inner", "inner", "new.rs")];
    let request = SemImpactRequest::default();
    let target = SemFocusTarget {
        entity: Some(SemEntityTarget::by_name("inner")),
        ..SemFocusTarget::default()
    };
    asks(2, |execution| {
        build_repo_graph_with_execution(
            "/repo", &paths, &options, execution, graph(&nodes), Vec::new(), &plain,
        )
    });
    asks(2, |execution| {
        build_repo_impact_context_with_execution(
            "/repo",
            &paths,
            &SemEntityTarget::by_id("inner"),
            &request,
            &options,
            execution,
            graph(&nodes),
            Vec::new(),
            &answers(),
            &plain,
        )
    });
    asks(1, |execution| {
        resolve_focus_target_with_execution(
            &nested_changes(),
            &target,
            &options,
            execution,
            &nested_registry(),
            &nested_diff(),
            &plain,
        )
    });
    asks(3, |execution| {
        build_diff_impact_context_with_execution(
            "/repo",
            &paths,
            &nested_changes(),
            &target,
            &request,
            &options,
            execution,
            &nested_registry(),
            &nested_diff(),
            graph(&nodes),
            Vec::new(),
            &answers(),
            &plain,
        )
    });
    asks(5, |execution| {
        build_memory_graph_with_execution(
            "/one",
            &[file("a.rs"), file("b.rs")],
            PathStyle::Unix,
            &options,
            execution,
            graph(&[]),
            Vec::new(),
            &plain,
        )
    });
}

// ---------------------------------------------------------------------------
// Configuration

#[test]
fn by_default_nothing_is_loaded() {
    let none = RegistryConfig { semrc_root: None, gitattributes_root: None };
    assert_eq!(registry_for_options(&SemEmbeddedOptions::default(), Some("/repo")), none);
    let mut options = SemEmbeddedOptions::with_root("/own".to_string());
    assert_eq!(registry_for_options(&options, Some("/repo")), none);
    options.load_semrc = true;
    assert_eq!(
        registry_for_options(&options, Some("/repo")),
        RegistryConfig { semrc_root: Some("/own".to_string()), gitattributes_root: None }
    );
    options.root = None;
    options.load_gitattributes = true;
    assert_eq!(
        registry_for_options(&options, Some("/repo")),
        RegistryConfig {
            semrc_root: Some("/repo".to_string()),
            gitattributes_root: Some("/repo".to_string()),
        }
    );
    assert_eq!(registry_for_options(&options, None), none);
}
