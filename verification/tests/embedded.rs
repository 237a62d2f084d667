//! Whole calls, with a small host that parses, diffs and links Rust functions.

use sem_embedded::analysis::{analyze_file_changes, extract_entity_index};
use sem_embedded::atoms::generate_review_layers_for_atoms;
use sem_embedded::collections::StringMap;
use sem_embedded::diff_impact::build_diff_impact_context;
use sem_embedded::execution::{SemCancellationToken, SemExecutionContext};
use sem_embedded::focus::resolve_focus_target;
use sem_embedded::graph::{build_repo_graph, build_repo_impact_context, graph_query};
use sem_embedded::layers::generate_review_layers;
use sem_embedded::memory::{build_memory_graph, PathStyle};
use sem_embedded::model::{
    ChangeType, ContextEntry, DiffResult, EntityGraph, EntityInfo, EntityRef, FileStatus,
    ReachedEntity, SemGraphAnswers, SemGraphQuery, SemanticChange, SemanticEntity,
};
use sem_embedded::parses::{files_to_parse, ParserRegistry, SemParse};
use sem_embedded::scan::{
    begin_scan, relative_repo_path, ScanAction, ScanEntry,
};
use sem_embedded::types::{
    SemEmbeddedOptions, SemEntityRange, SemEntityTarget, SemErrorKind, SemFileChange,
    SemFileInput, SemFocusTarget, SemGraphSnapshot, SemHunk, SemImpactRequest,
    SemLayerGenerationOptions, SemLineRange, SemLocationTarget, SemRepoScanOptions,
    SemReviewAtom, SemSide, SEM_EMBEDDED_API_VERSION,
};

// ---------------------------------------------------------------------------
// The host

fn content_hash(text: &str) -> String {
    let mut hash: u64 = 0xcbf2_9ce4_8422_2325;
    for byte in text.bytes() {
        hash ^= u64::from(byte);
        hash = hash.wrapping_mul(0x0000_0100_0000_01b3);
    }
    format!("{:016x}", hash)
}

/// The functions of a file. A function ends on its first line, or at the next
/// line that is just a closing brace.
fn parse(file_path: &str, content: &str) -> Vec<SemanticEntity> {
    let lines: Vec<&str> = content.lines().collect();
    let mut entities = Vec::new();
    for (index, line) in lines.iter().enumerate() {
        let declaration = line.strip_prefix("pub ").unwrap_or(line);
        if let Some(rest) = declaration.strip_prefix("fn ") {
            let name = rest.split('(').next().unwrap_or("").to_string();
            let mut end = index;
            if !line.ends_with('}') {
                while end + 1 < lines.len() && lines[end] != "}" {
                    end += 1;
                }
            }
            let body = lines[index..=end].join("\n");
            entities.push(SemanticEntity {
                id: format!("{}::function::{}", file_path, name),
                file_path: file_path.to_string(),
                entity_type: "function".to_string(),
                name,
                content_hash: content_hash(&body),
                content: body,
                start_line: index + 1,
                end_line: end + 1,
            });
        }
    }
    entities
}

fn registry_of(files: &[SemFileInput]) -> ParserRegistry {
    ParserRegistry {
        parses: files
            .iter()
            .map(|file| SemParse {
                file_path: file.file_path.clone(),
                content: file.content.clone(),
                entities: parse(&file.file_path, &file.content),
            })
            .collect(),
    }
}

fn change_of(
    entity: &SemanticEntity,
    change_type: ChangeType,
    before: Option<&SemanticEntity>,
    after: Option<&SemanticEntity>,
) -> SemanticChange {
    SemanticChange {
        entity_id: entity.id.clone(),
        change_type,
        entity_type: entity.entity_type.clone(),
        entity_name: entity.name.clone(),
        old_entity_name: None,
        file_path: entity.file_path.clone(),
        old_file_path: None,
        before_content: before.map(|entity| entity.content.clone()),
        after_content: after.map(|entity| entity.content.clone()),
    }
}

fn diff(changes: &[SemFileChange]) -> DiffResult {
    let mut found = Vec::new();
    let mut counts = (0, 0, 0);
    for change in changes {
        let path = change.file_path.as_str();
        let before = change.before_content.as_deref().map(|text| parse(path, text));
        let after = change.after_content.as_deref().map(|text| parse(path, text));
        let before = before.unwrap_or_default();
        let after = after.unwrap_or_default();
        for new in &after {
            match before.iter().find(|old| old.id == new.id) {
                Some(old) if old.content == new.content => {}
                Some(old) => {
                    counts.1 += 1;
                    found.push(change_of(new, ChangeType::Modified, Some(old), Some(new)));
                }
                None => {
                    counts.0 += 1;
                    found.push(change_of(new, ChangeType::Added, None, Some(new)));
                }
            }
        }
        for old in &before {
            if !after.iter().any(|new| new.id == old.id) {
                counts.2 += 1;
                found.push(change_of(old, ChangeType::Deleted, Some(old), None));
            }
        }
    }
    DiffResult {
        changes: found,
        file_count: changes.len(),
        added_count: counts.0,
        modified_count: counts.1,
        deleted_count: counts.2,
        moved_count: 0,
        renamed_count: 0,
        reordered_count: 0,
        orphan_count: 0,
    }
}

fn graph_of(entities: &[SemanticEntity]) -> EntityGraph {
    let mut infos = StringMap::new();
    let mut edges = Vec::new();
    for entity in entities {
        infos.insert(
            entity.id.clone(),
            EntityInfo {
                id: entity.id.clone(),
                name: entity.name.clone(),
                file_path: entity.file_path.clone(),
            },
        );
        for other in entities {
            if other.id != entity.id && entity.content.contains(&format!("{}(", other.name)) {
                edges.push(EntityRef {
                    from_entity: entity.id.clone(),
                    to_entity: other.id.clone(),
                    ref_type: "calls".to_string(),
                });
            }
        }
    }
    EntityGraph { entities: infos, edges }
}

fn answer(snapshot: &SemGraphSnapshot, query: &SemGraphQuery) -> SemGraphAnswers {
    let info = |id: &str| snapshot.graph.entities.get(id).expect("entity of an edge").clone();
    let dependencies: Vec<EntityInfo> = snapshot
        .graph
        .edges
        .iter()
        .filter(|edge| edge.from_entity == query.entity_id)
        .map(|edge| info(&edge.to_entity))
        .collect();
    let dependents: Vec<EntityInfo> = snapshot
        .graph
        .edges
        .iter()
        .filter(|edge| edge.to_entity == query.entity_id)
        .map(|edge| info(&edge.from_entity))
        .collect();
    let context = snapshot
        .entities
        .iter()
        .filter(|entity| entity.id == query.entity_id)
        .map(|entity| ContextEntry {
            entity_id: entity.id.clone(),
            entity_name: entity.name.clone(),
            entity_type: entity.entity_type.clone(),
            file_path: entity.file_path.clone(),
            role: "target".to_string(),
            content: entity.content.clone(),
            estimated_tokens: query.token_budget.min(entity.content.len() / 4),
        })
        .collect();
    SemGraphAnswers {
        dependencies,
        impact: dependents
            .iter()
            .map(|entity| ReachedEntity { entity: entity.clone(), depth: 1 })
            .collect(),
        dependents,
        tests: Vec::new(),
        context,
    }
}

fn no_answers() -> SemGraphAnswers {
    SemGraphAnswers {
        dependencies: Vec::new(),
        dependents: Vec::new(),
        impact: Vec::new(),
        tests: Vec::new(),
        context: Vec::new(),
    }
}

fn modified(path: &str, before: &str, after: &str, hunks: Vec<SemHunk>) -> SemFileChange {
    SemFileChange {
        file_path: path.to_string(),
        status: FileStatus::Modified,
        old_file_path: None,
        before_content: Some(before.to_string()),
        after_content: Some(after.to_string()),
        hunks,
    }
}

fn lines(start_line: usize, end_line: usize) -> Option<SemLineRange> {
    Some(SemLineRange { start_line, end_line })
}

// ---------------------------------------------------------------------------
// Analyses and indexes

#[test]
fn analyze_file_changes_reports_ranges_and_hunks() {
    let before = r#"fn greet(name: &str) -> String {
    format!("hello {name}")
}

fn untouched() -> i32 {
    1
}
"#;
    let after = r#"fn greet(name: &str) -> String {
    format!("hello there {name}")
}

fn untouched() -> i32 {
    1
}
"#;
    let changes = [SemFileChange {
        file_path: "src/lib.rs".to_string(),
        status: FileStatus::Modified,
        old_file_path: None,
        before_content: Some(before.to_string()),
        after_content: Some(after.to_string()),
        hunks: vec![SemHunk {
            hunk_id: Some("hunk-1".to_string()),
            hunk_index: 0,
            hunk_header: Some("@@ -1,3 +1,3 @@".to_string()),
            old_range: Some(SemLineRange { start_line: 1, end_line: 3 }),
            new_range: Some(SemLineRange { start_line: 1, end_line: 3 }),
        }],
    }];

    let analysis = analyze_file_changes(
        &changes,
        &SemEmbeddedOptions::default(),
        &registry_of(&files_to_parse(&changes)),
        &diff(&changes),
        &content_hash,
    );

    assert_eq!(analysis.summary.modified_count, 1);
    let change = analysis
        .changes
        .iter()
        .find(|change| change.change.entity_name == "greet")
        .expect("greet change");
    assert_eq!(
        change.before_range,
        Some(SemEntityRange {
            file_path: "src/lib.rs".to_string(),
            start_line: 1,
            end_line: 3,
        })
    );
    assert_eq!(
        change.after_range,
        Some(SemEntityRange {
            file_path: "src/lib.rs".to_string(),
            start_line: 1,
            end_line: 3,
        })
    );
    assert_eq!(change.hunk_overlaps.len(), 1);
    assert!(change.hunk_overlaps[0].overlaps_before);
    assert!(change.hunk_overlaps[0].overlaps_after);
}

#[test]
fn extract_entity_index_uses_in_memory_files() {
    let files = [SemFileInput {
        file_path: "src/lib.rs".to_string(),
        content: "fn compute() -> i32 { 42 }\n".to_string(),
    }];
    let index = extract_entity_index(
        &files,
        &SemEmbeddedOptions::default(),
        &registry_of(&files),
        &content_hash,
    );

    assert_eq!(index.api_version, SEM_EMBEDDED_API_VERSION);
    assert!(index
        .entities
        .iter()
        .any(|entity| entity.file_path == "src/lib.rs" && entity.name == "compute"));
}

// ---------------------------------------------------------------------------
// Impact

#[test]
fn impact_context_reaches_the_caller() {
    let files = [SemFileInput {
        file_path: "src/lib.rs".to_string(),
        content: r#"pub fn helper() -> i32 {
    1
}

pub fn caller() -> i32 {
    helper()
}
"#
        .to_string(),
    }];
    let file_paths = vec!["src/lib.rs".to_string()];
    let target = SemEntityTarget {
        entity_name: Some("helper".to_string()),
        file_path: Some("src/lib.rs".to_string()),
        ..SemEntityTarget::default()
    };
    let request = SemImpactRequest { token_budget: 512, max_depth: 1 };
    let options = SemEmbeddedOptions::default();
    let entities = parse(&files[0].file_path, &files[0].content);
    let snapshot = build_repo_graph(
        "/repo",
        &file_paths,
        &options,
        graph_of(&entities),
        entities.clone(),
        &content_hash,
    )
    .expect("snapshot");
    let query = graph_query(&snapshot, &target, &request).expect("query");
    assert_eq!(query.entity_id, "src/lib.rs::function::helper");
    assert_eq!(query.max_depth, 1);
    assert_eq!(query.token_budget, 512);

    let context = build_repo_impact_context(
        "/repo",
        &file_paths,
        &target,
        &request,
        &options,
        graph_of(&entities),
        entities,
        &answer(&snapshot, &query),
        &content_hash,
    )
    .expect("impact context");

    assert_eq!(context.entity.name, "helper");
    assert!(context
        .impact
        .iter()
        .any(|impact| impact.entity.name == "caller" && impact.depth == 1));
    assert_eq!(context.dependents.len(), 1);
    assert!(context.dependencies.is_empty());
    assert_eq!(context.context.len(), 1);
    assert_eq!(context.context[0].role, "target");
    assert_eq!(context.context[0].entity_name, "helper");
}

#[test]
fn diff_impact_context_reports_deleted_symbol_references() {
    let now = "pub fn caller() -> i32 {\n    helper()\n}\n";
    let changes = vec![SemFileChange {
        file_path: "src/lib.rs".to_string(),
        status: FileStatus::Modified,
        old_file_path: None,
        before_content: Some(
            "pub fn helper() -> i32 {\n    1\n}\n\npub fn caller() -> i32 {\n    helper()\n}\n"
                .to_string(),
        ),
        after_content: Some("pub fn caller() -> i32 {\n    helper()\n}\n".to_string()),
        hunks: vec![SemHunk {
            hunk_id: None,
            hunk_index: 0,
            hunk_header: Some("@@ -1,7 +1,3 @@".to_string()),
            old_range: lines(1, 7),
            new_range: lines(1, 3),
        }],
    }];
    let entities = parse("src/lib.rs", now);

    let context = build_diff_impact_context(
        "/repo",
        &["src/lib.rs".to_string()],
        &changes,
        &SemFocusTarget {
            entity: Some(SemEntityTarget {
                entity_name: Some("helper".to_string()),
                file_path: Some("src/lib.rs".to_string()),
                ..SemEntityTarget::default()
            }),
            ..SemFocusTarget::default()
        },
        &SemImpactRequest { token_budget: 512, max_depth: 1 },
        &SemEmbeddedOptions::default(),
        &registry_of(&files_to_parse(&changes)),
        &diff(&changes),
        graph_of(&entities),
        entities,
        &no_answers(),
        &content_hash,
    )
    .expect("diff impact");

    assert_eq!(
        context
            .deleted_entity
            .as_ref()
            .map(|entity| entity.entity.name.as_str()),
        Some("helper")
    );
    assert!(context
        .references
        .iter()
        .any(|reference| reference.entity.name == "caller"));
    assert_eq!(context.references[0].snippet.as_deref(), Some("helper()"));
    assert!(context.repo_context.is_none());
    assert_eq!(
        context.warnings,
        vec![
            "Target entity was resolved on the before side; current graph lookup failed: \
             entity id not found: src/lib.rs::function::helper"
        ]
    );
}

// ---------------------------------------------------------------------------
// Focus

#[test]
fn resolve_focus_target_finds_entity_at_location() {
    let changes = vec![SemFileChange {
        file_path: "src/lib.rs".to_string(),
        status: FileStatus::Modified,
        old_file_path: None,
        before_content: Some("fn target() -> i32 {\n    1\n}\n".to_string()),
        after_content: Some("fn target() -> i32 {\n    2\n}\n".to_string()),
        hunks: vec![SemHunk {
            hunk_id: None,
            hunk_index: 0,
            hunk_header: Some("@@ -1,3 +1,3 @@".to_string()),
            old_range: Some(SemLineRange { start_line: 1, end_line: 3 }),
            new_range: Some(SemLineRange { start_line: 1, end_line: 3 }),
        }],
    }];

    let focus = resolve_focus_target(
        &changes,
        &SemFocusTarget {
            location: Some(SemLocationTarget {
                file_path: "src/lib.rs".to_string(),
                line: 2,
                side: SemSide::After,
            }),
            ..SemFocusTarget::default()
        },
        &SemEmbeddedOptions::default(),
        &registry_of(&files_to_parse(&changes)),
        &diff(&changes),
        &content_hash,
    )
    .expect("focus");

    assert_eq!(
        focus
            .target_entity
            .as_ref()
            .map(|entity| entity.entity.name.as_str()),
        Some("target")
    );
    assert_eq!(focus.matching_changes.len(), 1);
}

// ---------------------------------------------------------------------------
// Graphs

#[test]
fn build_memory_graph_round_trips_cache_record() {
    let files = [SemFileInput {
        file_path: "src/lib.rs".to_string(),
        content: "fn helper() -> i32 { 1 }\nfn caller() -> i32 { helper() }\n".to_string(),
    }];
    let entities = parse(&files[0].file_path, &files[0].content);
    let graph = build_memory_graph(
        "/tmp/graph",
        &files,
        PathStyle::Unix,
        &SemEmbeddedOptions::default(),
        graph_of(&entities),
        entities,
        &content_hash,
    )
    .expect("memory graph");

    assert!(graph.entities.iter().any(|entity| entity.name == "helper"));
    let restored =
        SemGraphSnapshot::from_cache_record(graph.to_cache_record()).expect("cache record");
    assert_eq!(restored.cache_key, graph.cache_key);
    let entities = &restored.graph.entities;
    assert!((0..entities.len()).any(|at| entities.value_at(at).name == "caller"));
    assert_eq!(entities.len(), graph.graph.entities.len());
    assert_eq!(restored.graph.edges.len(), 1);
}

// ---------------------------------------------------------------------------
// The search for files

/// A directory of an imagined repository, or the text of a file.
enum Node {
    Dir(Vec<(&'static str, Node)>),
    File(&'static str),
}

/// All nodes by their handles, with their paths below the root.
fn number<'a>(path: String, node: &'a Node, nodes: &mut Vec<(String, &'a Node)>) {
    nodes.push((path.clone(), node));
    if let Node::Dir(children) = node {
        for (name, child) in children {
            let below = if path.is_empty() { name.to_string() } else { format!("{}/{}", path, name) };
            number(below, child, nodes);
        }
    }
}

fn discover(root: &Node, scan_options: &SemRepoScanOptions) -> Vec<String> {
    let mut nodes = Vec::new();
    number(String::new(), root, &mut nodes);
    let execution = SemExecutionContext::default();
    let mut scan = begin_scan("/repo", 0, true, scan_options, &execution).expect("a directory");
    loop {
        assert!(scan.can_go_deeper());
        match scan.next(false).expect("not cancelled") {
            ScanAction::ListDir { handle } => {
                let parent = nodes[handle].0.clone();
                let mut entries = Vec::new();
                for (at, (path, node)) in nodes.iter().enumerate() {
                    let (above, name) = path.rsplit_once('/').unwrap_or(("", path));
                    if at > 0 && above == parent {
                        entries.push(ScanEntry {
                            handle: at,
                            relative: relative_repo_path(Some(path.as_str())),
                            name: name.to_string(),
                            is_dir: matches!(node, Node::Dir(_)),
                        });
                    }
                }
                scan.dir_listed(entries);
            }
            ScanAction::ReadMetadata { handle } => {
                if let Node::File(text) = nodes[handle].1 {
                    if let ScanAction::ReadContent { handle } = scan.measured(text.len() as u64) {
                        let rust = nodes[handle].0.ends_with(".rs");
                        scan.content_read(Some(if rust { "code" } else { "fallback" }));
                    }
                }
            }
            ScanAction::ReadContent { .. } => unreachable!(),
            ScanAction::Resume => {}
            ScanAction::Finish => break,
        }
    }
    scan.finish("/repo", &SemEmbeddedOptions::default(), &content_hash).files
}

#[test]
fn discover_repo_files_respects_bounds_and_skips_cache_dirs() {
    let root = Node::Dir(vec![
        ("src", Node::Dir(vec![("lib.rs", Node::File("fn main() {}\n"))])),
        ("target", Node::Dir(vec![("generated.rs", Node::File("fn skip() {}\n"))])),
    ]);

    let files = discover(&root, &SemRepoScanOptions::default());

    assert_eq!(files, vec!["src/lib.rs".to_string()]);
}

#[test]
fn discovery_goes_no_deeper_and_takes_no_more_than_asked_for() {
    let root = Node::Dir(vec![
        ("b.rs", Node::File("fn b() {}\n")),
        ("a.rs", Node::File("fn a() {}\n")),
        ("deep", Node::Dir(vec![
            ("c.rs", Node::File("fn c() {}\n")),
            ("deeper", Node::Dir(vec![("d.rs", Node::File("fn d() {}\n"))])),
        ])),
        (".hidden", Node::Dir(vec![("e.rs", Node::File("fn e() {}\n"))])),
        (".f.rs", Node::File("fn f() {}\n")),
        ("notes.txt", Node::File("no code")),
    ]);

    let mut options = SemRepoScanOptions::default();
    assert_eq!(discover(&root, &options), vec!["a.rs", "b.rs", "deep/c.rs", "deep/deeper/d.rs"]);
    options.max_depth = 1;
    assert_eq!(discover(&root, &options), vec!["a.rs", "b.rs", "deep/c.rs"]);
    options.max_depth = 0;
    assert_eq!(discover(&root, &options), vec!["a.rs", "b.rs"]);
    options.max_files = 1;
    assert_eq!(discover(&root, &options), vec!["b.rs"]);
    options.max_files = 0;
    assert!(discover(&root, &options).is_empty());
    options = SemRepoScanOptions::default();
    options.include_hidden = true;
    options.extra_skip_dirs = vec!["deep".to_string()];
    assert_eq!(discover(&root, &options), vec![".f.rs", ".hidden/e.rs", "a.rs", "b.rs"]);
    options.max_file_bytes = 9;
    assert!(discover(&root, &options).is_empty());
}

#[test]
fn execution_context_can_cancel_work() {
    struct Cancelled;
    impl SemCancellationToken for Cancelled {
        fn is_cancelled(&self) -> bool {
            true
        }
    }

    let error = begin_scan(
        "/repo",
        0,
        true,
        &SemRepoScanOptions::default(),
        &SemExecutionContext { cancellation: Some(&Cancelled), progress: None },
    )
    .err()
    .expect("cancelled");

    assert_eq!(error.kind, SemErrorKind::Cancelled);
}

// ---------------------------------------------------------------------------
// Review layers

#[test]
fn generate_review_layers_groups_code_and_tests() {
    let changes = vec![
        SemFileChange {
            file_path: "src/lib.rs".to_string(),
            status: FileStatus::Modified,
            old_file_path: None,
            before_content: Some("fn helper() -> i32 { 1 }\n".to_string()),
            after_content: Some("fn helper() -> i32 { 2 }\n".to_string()),
            hunks: Vec::new(),
        },
        SemFileChange {
            file_path: "tests/helper_test.rs".to_string(),
            status: FileStatus::Added,
            old_file_path: None,
            before_content: None,
            after_content: Some("#[test]\nfn helper_test() { assert_eq!(2, 2); }\n".to_string()),
            hunks: Vec::new(),
        },
    ];

    let plan = generate_review_layers(
        &changes,
        &SemLayerGenerationOptions::default(),
        &SemEmbeddedOptions::default(),
        &registry_of(&files_to_parse(&changes)),
        &diff(&changes),
        &content_hash,
    );

    assert!(plan
        .layers
        .iter()
        .any(|layer| layer.title == "Update helper"));
    assert!(plan
        .layers
        .iter()
        .any(|layer| layer.title == "Update tests"));
}

#[test]
fn generate_review_layers_for_atoms_preserves_atom_ids() {
    let changes = vec![modified(
        "src/lib.rs",
        "fn helper() -> i32 { 1 }\n",
        "fn helper() -> i32 { 2 }\n",
        vec![SemHunk {
            hunk_id: Some("hunk-0".to_string()),
            hunk_index: 0,
            hunk_header: None,
            old_range: lines(1, 1),
            new_range: lines(1, 1),
        }],
    )];
    let atoms = vec![SemReviewAtom {
        atom_id: "atom-helper".to_string(),
        file_path: "src/lib.rs".to_string(),
        old_file_path: None,
        role: Some("coreLogic".to_string()),
        semantic_kind: Some("function".to_string()),
        symbol_name: Some("helper".to_string()),
        defined_symbols: vec!["helper".to_string()],
        referenced_symbols: Vec::new(),
        old_range: lines(1, 1),
        new_range: lines(1, 1),
        hunk_indices: vec![0],
        changed_lines: 2,
        manual_review: false,
    }];

    let plan = generate_review_layers_for_atoms(
        &changes,
        &atoms,
        &SemLayerGenerationOptions::default(),
        &SemEmbeddedOptions::default(),
        &registry_of(&files_to_parse(&changes)),
        &diff(&changes),
        &content_hash,
    );

    assert!(plan
        .layers
        .iter()
        .any(|layer| layer.atom_ids == vec!["atom-helper"]));
    assert!(plan.manual_review_atom_ids.is_empty());
    assert!(!plan.cache_key.is_empty());
}

#[test]
fn atom_layer_dependencies_link_tests_to_changed_symbols() {
    let changes = vec![
        modified(
            "src/lib.rs",
            "fn helper() -> i32 { 1 }\n",
            "fn helper() -> i32 { 2 }\n",
            Vec::new(),
        ),
        modified(
            "tests/helper_test.rs",
            "#[test]\nfn helper_test() { assert_eq!(1, helper()); }\n",
            "#[test]\nfn helper_test() { assert_eq!(2, helper()); }\n",
            Vec::new(),
        ),
    ];
    let atoms = vec![
        SemReviewAtom {
            atom_id: "atom-helper".to_string(),
            file_path: "src/lib.rs".to_string(),
            old_file_path: None,
            role: Some("coreLogic".to_string()),
            semantic_kind: Some("function".to_string()),
            symbol_name: Some("helper".to_string()),
            defined_symbols: vec!["helper".to_string()],
            referenced_symbols: Vec::new(),
            old_range: None,
            new_range: None,
            hunk_indices: Vec::new(),
            changed_lines: 1,
            manual_review: false,
        },
        SemReviewAtom {
            atom_id: "atom-test".to_string(),
            file_path: "tests/helper_test.rs".to_string(),
            old_file_path: None,
            role: Some("tests".to_string()),
            semantic_kind: Some("function".to_string()),
            symbol_name: Some("helper_test".to_string()),
            defined_symbols: vec!["helper_test".to_string()],
            referenced_symbols: vec!["helper".to_string()],
            old_range: None,
            new_range: None,
            hunk_indices: Vec::new(),
            changed_lines: 1,
            manual_review: false,
        },
    ];

    let plan = generate_review_layers_for_atoms(
        &changes,
        &atoms,
        &SemLayerGenerationOptions::default(),
        &SemEmbeddedOptions::default(),
        &registry_of(&files_to_parse(&changes)),
        &diff(&changes),
        &content_hash,
    );
    let code_layer = plan
        .layers
        .iter()
        .find(|layer| layer.atom_ids == vec!["atom-helper"])
        .expect("code layer");
    let test_layer = plan
        .layers
        .iter()
        .find(|layer| layer.atom_ids == vec!["atom-test"])
        .expect("test layer");

    assert!(test_layer.depends_on_layer_ids.contains(&code_layer.id));
}

#[test]
fn manual_review_atoms_are_reported_without_layer_assignment() {
    let changes: [SemFileChange; 0] = [];
    let plan = generate_review_layers_for_atoms(
        &changes,
        &[SemReviewAtom {
            atom_id: "atom-manual".to_string(),
            file_path: "generated/output.rs".to_string(),
            old_file_path: None,
            role: Some("generated".to_string()),
            semantic_kind: None,
            symbol_name: None,
            defined_symbols: Vec::new(),
            referenced_symbols: Vec::new(),
            old_range: None,
            new_range: None,
            hunk_indices: Vec::new(),
            changed_lines: 10,
            manual_review: true,
        }],
        &SemLayerGenerationOptions::default(),
        &SemEmbeddedOptions::default(),
        &registry_of(&files_to_parse(&changes)),
        &diff(&changes),
        &content_hash,
    );

    assert!(plan.layers.is_empty());
    assert_eq!(plan.manual_review_atom_ids, vec!["atom-manual"]);
}
