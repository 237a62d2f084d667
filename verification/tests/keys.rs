//! Keys and the texts they are the hashes of. Hashing with the identity shows
//! the text itself.

use sem_embedded::execution::sem_error_kind_label;
use sem_embedded::hash::stable_cache_key;
use sem_embedded::keys::{
    diff_cache_key, diff_impact_cache_key, discovery_cache_key, entity_index_cache_key,
    file_status_label, focus_cache_key, impact_cache_key, memory_graph_cache_key,
    options_fingerprint, repo_graph_cache_key, review_atom_layer_cache_key,
    review_layer_cache_key,
};
use sem_embedded::memory::temp_graph_dir_name;
use sem_embedded::model::{FileStatus, SemanticEntity};
use sem_embedded::types::{
    SemEmbeddedOptions, SemEntityTarget, SemErrorKind, SemFileChange, SemFileInput,
    SemFocusTarget, SemHunk, SemHunkTarget, SemImpactRequest, SemLayerGenerationOptions,
    SemLineRange, SemLocationTarget, SemRepoScanOptions, SemReviewAtom, SemSide,
};

fn plain(text: &str) -> String {
    text.to_string()
}

fn marked(text: &str) -> String {
    format!("<{}>", text)
}

fn entity(id: &str, content_hash: &str) -> SemanticEntity {
    SemanticEntity {
        id: id.to_string(),
        file_path: String::new(),
        entity_type: String::new(),
        name: String::new(),
        content: String::new(),
        content_hash: content_hash.to_string(),
        start_line: 1,
        end_line: 1,
    }
}

fn changes() -> Vec<SemFileChange> {
    vec![SemFileChange {
        file_path: "b.rs".to_string(),
        status: FileStatus::Renamed,
        old_file_path: Some("a.rs".to_string()),
        before_content: Some("one".to_string()),
        after_content: None,
        hunks: vec![SemHunk {
            hunk_id: Some("h1".to_string()),
            hunk_index: 7,
            hunk_header: Some("say \"hi\"\n".to_string()),
            old_range: Some(SemLineRange { start_line: 1, end_line: 3 }),
            new_range: None,
        }],
    }]
}

const OPTIONS: &str = "opts:semrc=false:gitattributes=false";

#[test]
fn a_key_is_the_hash_of_version_kind_and_parts() {
    let parts = vec!["a".to_string(), String::new(), "b".to_string()];
    assert_eq!(stable_cache_key(&plain, "kind", &parts), "sem-embedded-v1\0kind\0a\0\0b");
    assert_eq!(stable_cache_key(&marked, "kind", &[]), "<sem-embedded-v1\0kind>");
}

#[test]
fn parts_of_a_key_are_told_apart() {
    let joined = vec!["ab".to_string()];
    let apart = vec!["a".to_string(), "b".to_string()];
    assert_ne!(stable_cache_key(&plain, "k", &joined), stable_cache_key(&plain, "k", &apart));
    assert_ne!(stable_cache_key(&plain, "ka", &[]), stable_cache_key(&plain, "k", &["a".to_string()]));
}

#[test]
fn options_are_told_by_what_they_load() {
    let mut options = SemEmbeddedOptions::with_root("/repo");
    assert_eq!(options.root.as_deref(), Some("/repo"));
    assert_eq!(options_fingerprint(&options), OPTIONS);
    options.load_semrc = true;
    assert_eq!(options_fingerprint(&options), "opts:semrc=true:gitattributes=false");
    options.load_gitattributes = true;
    assert_eq!(options_fingerprint(&options), "opts:semrc=true:gitattributes=true");
}

#[test]
fn labels_of_status_and_error() {
    assert_eq!(file_status_label(&FileStatus::Added), "added");
    assert_eq!(file_status_label(&FileStatus::Modified), "modified");
    assert_eq!(file_status_label(&FileStatus::Deleted), "deleted");
    assert_eq!(file_status_label(&FileStatus::Renamed), "renamed");
    assert_eq!(sem_error_kind_label(SemErrorKind::Cancelled), "cancelled");
    assert_eq!(sem_error_kind_label(SemErrorKind::InvalidInput), "invalid input");
    assert_eq!(sem_error_kind_label(SemErrorKind::Io), "io");
    assert_eq!(sem_error_kind_label(SemErrorKind::NotFound), "not found");
    assert_eq!(sem_error_kind_label(SemErrorKind::AmbiguousTarget), "ambiguous target");
    assert_eq!(sem_error_kind_label(SemErrorKind::Unsupported), "unsupported");
    assert_eq!(sem_error_kind_label(SemErrorKind::Internal), "internal");
}

#[test]
fn diff_key_tells_changes_and_hunks() {
    assert_eq!(
        diff_cache_key(&changes(), &SemEmbeddedOptions::default(), &plain),
        format!(
            "sem-embedded-v1\0diff\0{}\0b.rs:renamed:a.rs:one:\0{}",
            OPTIONS,
            "hunk:7:h1:Some(\"say \\\"hi\\\"\\n\"):\
             Some(SemLineRange { start_line: 1, end_line: 3 }):None"
        )
    );
    assert!(diff_cache_key(&changes(), &SemEmbeddedOptions::default(), &marked)
        .contains("b.rs:renamed:a.rs:<one>:"));
}

#[test]
fn debug_texts_are_those_of_the_standard_library() {
    for header in ["", "plain", "tab\t", "quote '", "back\\slash", "\u{1}", "é", "\u{200b}"] {
        let mut changes = changes();
        changes[0].hunks[0].hunk_header = Some(header.to_string());
        let key = diff_cache_key(&changes, &SemEmbeddedOptions::default(), &plain);
        assert!(key.contains(&format!("hunk:7:h1:{:?}:", Some(header))));
    }
    let mut changes = changes();
    changes[0].hunks[0].hunk_header = None;
    assert!(diff_cache_key(&changes, &SemEmbeddedOptions::default(), &plain)
        .contains("hunk:7:h1:None:Some"));
}

#[test]
fn file_keys_tell_paths_and_hashes() {
    let files = [SemFileInput { file_path: "a.rs".to_string(), content: "x".to_string() }];
    let options = SemEmbeddedOptions::default();
    assert_eq!(
        entity_index_cache_key(&files, &options, &plain),
        format!("sem-embedded-v1\0entities\0{}\0a.rs:x", OPTIONS)
    );
    assert_eq!(
        memory_graph_cache_key(&files, &options, &plain),
        format!("sem-embedded-v1\0memory-graph\0{}\0a.rs:x", OPTIONS)
    );
    assert_eq!(
        temp_graph_dir_name(&files, &options, 42, &plain),
        format!("sem-embedded-42-sem-embedded-v1\0memory-graph\0{}\0a.rs:x", OPTIONS)
    );
}

#[test]
fn discovery_key_tells_bounds_and_files() {
    let scan = SemRepoScanOptions::default();
    let files = ["a.rs".to_string(), "b.rs".to_string()];
    assert_eq!(
        discovery_cache_key("/repo", &scan, &SemEmbeddedOptions::default(), &files, &plain),
        format!(
            "sem-embedded-v1\0discover\0/repo\0{}\0scan:2000:512000:12:false\0a.rs\0b.rs",
            OPTIONS
        )
    );
}

#[test]
fn graph_key_ignores_the_order_of_files_and_entities() {
    let options = SemEmbeddedOptions::default();
    let one = repo_graph_cache_key(
        "/repo",
        &["b.rs".to_string(), "a.rs".to_string()],
        &options,
        &[entity("x", "2"), entity("w", "1")],
        &plain,
    );
    let other = repo_graph_cache_key(
        "/repo",
        &["a.rs".to_string(), "b.rs".to_string()],
        &options,
        &[entity("w", "1"), entity("x", "2")],
        &plain,
    );
    assert_eq!(one, other);
    assert_eq!(
        one,
        format!(
            "sem-embedded-v1\0repo-graph\0/repo\0{}\0path:a.rs\0path:b.rs\0w:1\0x:2",
            OPTIONS
        )
    );
}

#[test]
fn impact_keys_ignore_the_order_of_files() {
    let target = SemEntityTarget::by_id("id");
    let request = SemImpactRequest::default();
    let paths = ["b".to_string(), "a".to_string()];
    let swapped = ["a".to_string(), "b".to_string()];
    let key = impact_cache_key("graph", &paths, &target, &request, &plain);
    assert_eq!(key, impact_cache_key("graph", &swapped, &target, &request, &plain));
    assert_eq!(
        key,
        "sem-embedded-v1\0impact\0graph\0files:a,b:target:id:::request:4096:2"
    );
    let named = SemEntityTarget::by_name("n");
    assert!(impact_cache_key("graph", &paths, &named, &request, &plain)
        .ends_with("files:a,b:target::n::request:4096:2"));

    let focus = SemFocusTarget::default();
    let options = SemEmbeddedOptions::default();
    let changes = changes();
    let key = diff_impact_cache_key(&paths, &changes, &focus, &request, &options, "graph", &plain);
    assert_eq!(
        key,
        diff_impact_cache_key(&swapped, &changes, &focus, &request, &options, "graph", &plain)
    );
    assert!(key.starts_with("sem-embedded-v1\0diff-impact\0graph\0sem-embedded-v1\0diff\0"));
    assert!(key.ends_with("\0{}\0request:4096:2\0a\nb"));
}

#[test]
fn focus_key_holds_the_target_as_json() {
    let target = SemFocusTarget {
        entity: Some(SemEntityTarget {
            entity_id: None,
            entity_name: Some("a \"b\"\\\n\u{7}é".to_string()),
            file_path: Some("x/y.rs".to_string()),
        }),
        location: Some(SemLocationTarget {
            file_path: "x/y.rs".to_string(),
            line: 12,
            side: SemSide::Before,
        }),
        hunk: Some(SemHunkTarget {
            file_path: "x/y.rs".to_string(),
            old_file_path: None,
            hunk_index: Some(3),
            hunk_header: None,
            side: SemSide::After,
            old_range: None,
            new_range: Some(SemLineRange { start_line: 4, end_line: 5 }),
        }),
    };
    let key = focus_cache_key(&changes(), &target, &SemEmbeddedOptions::default(), &plain);
    let json = key.rsplit('\0').next().expect("the last part");
    assert_eq!(
        json,
        "{\"entity\":{\"entityName\":\"a \\\"b\\\"\\\\\\n\\u0007é\",\"filePath\":\"x/y.rs\"},\
         \"location\":{\"filePath\":\"x/y.rs\",\"line\":12,\"side\":\"before\"},\
         \"hunk\":{\"filePath\":\"x/y.rs\",\"hunkIndex\":3,\"side\":\"after\",\
         \"newRange\":{\"startLine\":4,\"endLine\":5}}}"
    );
    let value: serde_json::Value = serde_json::from_str(json).expect("valid JSON");
    assert_eq!(value["entity"]["entityName"], "a \"b\"\\\n\u{7}é");
    assert_eq!(value["location"]["line"], 12);
    assert!(value["hunk"].get("oldRange").is_none());
}

#[test]
fn every_character_survives_json() {
    for code in 0..0x300u32 {
        if let Some(c) = char::from_u32(code) {
            let target = SemFocusTarget {
                entity: Some(SemEntityTarget::by_name(format!("<{}>", c))),
                ..SemFocusTarget::default()
            };
            // The zero character is escaped, so it parts nothing.
            let key = focus_cache_key(&[], &target, &SemEmbeddedOptions::default(), &plain);
            let json = key.rsplit('\0').next().expect("the last part");
            let value: serde_json::Value = serde_json::from_str(json).expect("valid JSON");
            assert_eq!(value["entity"]["entityName"], format!("<{}>", c));
            assert_eq!(
                json,
                format!(
                    "{{\"entity\":{{\"entityName\":{}}}}}",
                    serde_json::to_string(&format!("<{}>", c)).expect("a string")
                )
            );
        }
    }
}

#[test]
fn review_keys_tell_bounds_and_atoms() {
    let options = SemEmbeddedOptions::default();
    let layers = SemLayerGenerationOptions::default();
    let key = review_layer_cache_key("analysis", &layers, &options, &plain);
    assert_eq!(key, format!("sem-embedded-v1\0review-layers\0analysis\0{}\024:24", OPTIONS));
    let atom = SemReviewAtom {
        atom_id: "id".to_string(),
        file_path: "a.rs".to_string(),
        old_file_path: None,
        role: Some("r".to_string()),
        semantic_kind: None,
        symbol_name: Some("not told".to_string()),
        defined_symbols: vec!["z".to_string(), "y".to_string()],
        referenced_symbols: vec!["w".to_string()],
        old_range: None,
        new_range: Some(SemLineRange { start_line: 1, end_line: 2 }),
        hunk_indices: vec![3, 1],
        changed_lines: 9,
        manual_review: true,
    };
    assert_eq!(
        review_atom_layer_cache_key("analysis", &[atom], &layers, &options, &plain),
        format!(
            "sem-embedded-v1\0review-atom-layers\0{}\0{}\024:24\0{}",
            key,
            OPTIONS,
            "id:a.rs::r:None:Some(SemLineRange { start_line: 1, end_line: 2 }):y,z:w:3,1:9:true"
        )
    );
}
