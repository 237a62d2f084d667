//! Texts, lines, orders and sets.

use sem_embedded::analysis::{
    entity_by_id_or_content, extract_change_entities, extract_entity_index,
    hunk_overlaps_for_change, ranges_overlap, to_file_change,
};
use sem_embedded::collections::{ordered_texts, NumberSet, StringMap, StringSet};
use sem_embedded::groups::{group_indices, split_groups};
use sem_embedded::lines::first_matching_line;
use sem_embedded::model::{FileStatus, SemanticEntity};
use sem_embedded::order::sorted_strings;
use sem_embedded::parses::{ParserRegistry, SemParse};
use sem_embedded::search::{
    contains_identifier, directory_of, lower_text, path_has_hidden_component, text_has_part,
};
use sem_embedded::text::{bool_text, compare_texts, decimal_text, join_texts, Rank};
use sem_embedded::types::{
    SemEmbeddedOptions, SemEntityRange, SemFileChange, SemFileInput, SemHunk, SemImpactRequest,
    SemLayerGenerationOptions, SemLineRange, SemRepoScanOptions,
};

fn plain(text: &str) -> String {
    text.to_string()
}

fn texts(list: &[&str]) -> Vec<String> {
    list.iter().map(|text| text.to_string()).collect()
}

fn entity(id: &str, path: &str, name: &str, line: usize, content: &str) -> SemanticEntity {
    SemanticEntity {
        id: id.to_string(),
        file_path: path.to_string(),
        entity_type: "function".to_string(),
        name: name.to_string(),
        content: content.to_string(),
        content_hash: String::new(),
        start_line: line,
        end_line: line,
    }
}

#[test]
fn defaults() {
    let scan = SemRepoScanOptions::default();
    assert_eq!((scan.max_files, scan.max_file_bytes, scan.max_depth), (2_000, 512_000, 12));
    assert!(!scan.include_hidden && scan.extra_skip_dirs.is_empty());
    let request = SemImpactRequest::default();
    assert_eq!((request.token_budget, request.max_depth), (4_096, 2));
    let layers = SemLayerGenerationOptions::default();
    assert_eq!((layers.max_layers, layers.max_changes_per_layer), (24, 24));
    let options = SemEmbeddedOptions::default();
    assert!(options.root.is_none() && !options.load_semrc && !options.load_gitattributes);
}

#[test]
fn numbers_and_truths_in_words() {
    assert_eq!(decimal_text(0), "0");
    assert_eq!(decimal_text(1_090), "1090");
    assert_eq!(decimal_text(u64::MAX), u64::MAX.to_string());
    assert_eq!((bool_text(true), bool_text(false)), ("true", "false"));
    assert_eq!(join_texts(&texts(&["a", "", "b"]), ", "), "a, , b");
    assert_eq!(join_texts(&[], ", "), "");
}

#[test]
fn texts_are_in_the_order_of_the_standard_library() {
    let samples = ["", "a", "A", "ab", "b", "é", "z", "\u{ffff}", "\u{10000}", "a\0"];
    for a in samples {
        for b in samples {
            let expected = if a < b {
                Rank::Less
            } else if a == b {
                Rank::Equal
            } else {
                Rank::Greater
            };
            assert_eq!(compare_texts(a, b), expected);
        }
    }
    let mut sorted = texts(&samples);
    sorted.sort();
    assert_eq!(sorted_strings(&texts(&samples)), sorted);
    assert_eq!(sorted_strings(&texts(&["b", "a", "b"])), texts(&["a", "b", "b"]));
    assert_eq!(ordered_texts(&texts(&["b", "a", "b"])), texts(&["a", "b"]));
}

#[test]
fn sets_and_maps_keep_their_order() {
    let mut set = StringSet::new();
    set.insert_all(&texts(&["m", "z", "a", "m"]));
    assert_eq!(set.len(), 3);
    assert!(set.contains("z") && !set.contains("b"));
    assert_eq!(set.first(), "a");
    assert_eq!(set.into_vec(), texts(&["a", "m", "z"]));
    let mut map = StringMap::new();
    map.insert("b".to_string(), 1);
    map.insert("a".to_string(), 2);
    map.insert("b".to_string(), 3);
    assert_eq!(map.len(), 2);
    assert_eq!((map.key_at(0), *map.value_at(0)), ("a", 2));
    assert_eq!((map.key_at(1), *map.value_at(1)), ("b", 3));
    assert!(map.get("c").is_none());
    let mut numbers = NumberSet::new();
    numbers.insert_all(&[5, 1, 5, 3]);
    numbers.insert(0);
    assert_eq!(numbers.into_vec(), vec![0, 1, 3, 5]);
}

#[test]
fn groups_are_cut_into_chunks() {
    let keys: Vec<Option<String>> =
        ["b", "a", "", "b", "b"].iter().map(|key| {
            if key.is_empty() { None } else { Some(key.to_string()) }
        }).collect();
    let (groups, none) = group_indices(&keys);
    assert_eq!(none, vec![2]);
    assert_eq!(groups.len(), 2);
    assert_eq!((groups[0].key.as_str(), groups[0].indices.as_slice()), ("a", &[1][..]));
    assert_eq!((groups[1].key.as_str(), groups[1].indices.as_slice()), ("b", &[0, 3, 4][..]));
    let (chunks, rest) = split_groups(&groups, 2, 2);
    assert_eq!(chunks.len(), 2);
    assert_eq!(chunks[1].indices, vec![0, 3]);
    assert_eq!(rest, vec![4]);
    let (chunks, rest) = split_groups(&groups, 1, 0);
    assert!(chunks.is_empty());
    assert_eq!(rest, vec![1, 0, 3, 4]);
}

#[test]
fn parts_of_paths() {
    assert_eq!(directory_of("a/b/c.rs"), "a/b");
    assert_eq!(directory_of("c.rs"), ".");
    assert_eq!(directory_of("/c.rs"), "");
    assert_eq!(lower_text("ÄbC"), "Äbc");
    assert!(text_has_part("abc", "") && text_has_part("abc", "bc") && !text_has_part("abc", "cb"));
    assert!(path_has_hidden_component("a/.b/c"));
    assert!(path_has_hidden_component("...") && path_has_hidden_component("..a"));
    assert!(!path_has_hidden_component("./a") && !path_has_hidden_component("../a"));
    assert!(!path_has_hidden_component("a.b/c."));
}

#[test]
fn identifiers_stand_alone() {
    assert!(contains_identifier("x = f(1)", "f"));
    assert!(contains_identifier("f", "f"));
    assert!(contains_identifier("äfä", "f"));
    assert!(!contains_identifier("ff _f f_ f1", "f"));
    assert!(!contains_identifier("a b", ""));
    assert!(contains_identifier("a  b", ""));
}

#[test]
fn the_first_line_that_mentions_a_name() {
    assert_eq!(
        first_matching_line("one\r\n \t two f \u{3000}\r\nf", "f"),
        Some("two f".to_string())
    );
    assert_eq!(first_matching_line("one\ntwo", "f"), None);
    let long = format!("f {}", "é".repeat(400));
    let snippet = first_matching_line(&long, "f").expect("a line");
    assert_eq!(snippet.chars().count(), 260);
    assert!(long.starts_with(&snippet));
}

#[test]
fn an_index_is_sorted_by_file_line_and_id() {
    let file = |path: &str| SemFileInput {
        file_path: path.to_string(),
        content: path.to_string(),
    };
    let parse = |path: &str, entities: Vec<SemanticEntity>| SemParse {
        file_path: path.to_string(),
        content: path.to_string(),
        entities,
    };
    let registry = ParserRegistry {
        parses: vec![
            parse("b", vec![entity("2", "b", "x", 9, ""), entity("1", "b", "x", 9, "")]),
            parse("a", vec![entity("3", "a", "x", 10, ""), entity("4", "a", "x", 9, "")]),
        ],
    };
    let index = extract_entity_index(
        &[file("b"), file("a"), file("c")],
        &SemEmbeddedOptions::default(),
        &registry,
        &plain,
    );
    let ids: Vec<&str> = index.entities.iter().map(|entity| entity.id.as_str()).collect();
    assert_eq!(ids, vec!["4", "3", "1", "2"]);

    for files in [[file("a"), file("c"), file("b")], [file("c"), file("b"), file("a")]] {
        let other =
            extract_entity_index(&files, &SemEmbeddedOptions::default(), &registry, &plain);
        let other_ids: Vec<&str> =
            other.entities.iter().map(|entity| entity.id.as_str()).collect();
        assert_eq!(other_ids, ids);
    }
}

#[test]
fn ranges_that_share_a_line() {
    let range = |start_line, end_line| SemEntityRange {
        file_path: String::new(),
        start_line,
        end_line,
    };
    let lines = |start_line, end_line| SemLineRange { start_line, end_line };
    assert!(ranges_overlap(&range(1, 3), &lines(3, 5)));
    assert!(ranges_overlap(&range(4, 4), &lines(3, 5)));
    assert!(!ranges_overlap(&range(1, 2), &lines(3, 5)));
    assert!(!ranges_overlap(&range(0, 9), &lines(3, 5)));
    assert!(!ranges_overlap(&range(1, 9), &lines(0, 5)));
    assert!(!ranges_overlap(&range(1, 9), &lines(5, 0)));
}

#[test]
fn hunks_touch_an_entity_on_the_side_of_its_file() {
    let hunk = |index, old_range, new_range| SemHunk {
        hunk_id: None,
        hunk_index: index,
        hunk_header: None,
        old_range,
        new_range,
    };
    let lines = |start_line, end_line| Some(SemLineRange { start_line, end_line });
    let change = SemFileChange {
        file_path: "new.rs".to_string(),
        status: FileStatus::Renamed,
        old_file_path: Some("old.rs".to_string()),
        before_content: None,
        after_content: None,
        hunks: vec![hunk(0, lines(1, 2), None), hunk(1, lines(8, 9), lines(3, 3)), hunk(2, None, None)],
    };
    let before = Some(SemEntityRange {
        file_path: "old.rs".to_string(),
        start_line: 2,
        end_line: 4,
    });
    let after = Some(SemEntityRange {
        file_path: "new.rs".to_string(),
        start_line: 2,
        end_line: 4,
    });
    let found = hunk_overlaps_for_change(&[change.clone()], &before, &after);
    assert_eq!(found.len(), 2);
    assert_eq!(
        (found[0].hunk_index, found[0].overlaps_before, found[0].overlaps_after),
        (0, true, false)
    );
    assert_eq!(
        (found[1].hunk_index, found[1].overlaps_before, found[1].overlaps_after),
        (1, false, true)
    );
    assert_eq!(found[0].old_file_path.as_deref(), Some("old.rs"));
    assert!(hunk_overlaps_for_change(&[change.clone()], &after, &before).is_empty());
    let plain_change = to_file_change(&change);
    assert_eq!(plain_change.file_path, "new.rs");
    assert_eq!(plain_change.status, FileStatus::Renamed);
}

#[test]
fn an_entity_is_found_by_id_or_else_by_content() {
    let change = SemFileChange {
        file_path: "a.rs".to_string(),
        status: FileStatus::Added,
        old_file_path: None,
        before_content: None,
        after_content: Some("text".to_string()),
        hunks: Vec::new(),
    };
    let registry = ParserRegistry {
        parses: vec![SemParse {
            file_path: "a.rs".to_string(),
            content: "text".to_string(),
            entities: vec![
                entity("x", "b.rs", "n", 1, "same"),
                entity("y", "a.rs", "m", 2, "same"),
                entity("z", "a.rs", "n", 3, "same"),
                entity("x", "a.rs", "n", 4, "other"),
            ],
        }],
    };
    let extracted = extract_change_entities(&[change], &registry);
    assert!(extracted.before.is_empty());
    let line = |id: &str, path: &str, name: &str, content: Option<&str>| {
        entity_by_id_or_content(
            &extracted.after,
            &extracted.after_by_id,
            id,
            path,
            "function",
            name,
            content,
        )
        .map(|entity| entity.start_line)
    };
    assert_eq!(line("x", "a.rs", "n", None), Some(4));
    assert_eq!(line("w", "a.rs", "n", Some("same")), Some(3));
    assert_eq!(line("w", "a.rs", "k", Some("same")), Some(2));
    assert_eq!(line("w", "c.rs", "k", Some("same")), Some(1));
    assert_eq!(line("w", "c.rs", "k", Some("none")), None);
    assert_eq!(line("w", "a.rs", "n", None), None);

    let mut by_id = StringMap::new();
    by_id.insert("first".to_string(), 0);
    by_id.insert("beyond".to_string(), extracted.after.len());
    let led_to = |id: &str, content: Option<&str>| {
        entity_by_id_or_content(&extracted.after, &by_id, id, "a.rs", "function", "n", content)
            .map(|entity| entity.start_line)
    };
    assert_eq!(led_to("first", None), Some(1));
    assert_eq!(led_to("beyond", None), None);
    assert_eq!(led_to("beyond", Some("same")), Some(3));
}
