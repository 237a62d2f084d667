//! Review layers, with changes and atoms written out.

use sem_embedded::atoms::{
    attach_atoms_to_review_layers, can_count_lines, try_generate_review_layers_for_atoms,
};
use sem_embedded::layers::review_layers_from_analysis;
use sem_embedded::matching::{
    embedded_change_matches_atom, range_overlaps_entity, review_layer_matches_atom,
};
use sem_embedded::model::{ChangeType, DiffResult, SemanticChange};
use sem_embedded::parses::ParserRegistry;
use sem_embedded::roles::{
    atom_layer_key, is_config_role, is_foundation_role, is_test_role, layer_key_for_change,
    layer_order, layer_order_key, path_is_config, path_is_test,
};
use sem_embedded::types::{
    SemDiffAnalysis, SemDiffSummary, SemEmbeddedChange, SemEmbeddedOptions, SemEntityRange,
    SemHunkOverlap, SemLayerGenerationOptions, SemLineRange, SemReviewAtom, SemReviewLayerPlan,
};

fn plain(text: &str) -> String {
    text.to_string()
}

fn change(name: &str, entity_type: &str, path: &str, change_type: ChangeType) -> SemEmbeddedChange {
    SemEmbeddedChange {
        change: SemanticChange {
            entity_id: format!("{}::{}", path, name),
            change_type,
            entity_type: entity_type.to_string(),
            entity_name: name.to_string(),
            old_entity_name: None,
            file_path: path.to_string(),
            old_file_path: None,
            before_content: None,
            after_content: None,
        },
        before_range: None,
        after_range: None,
        hunk_overlaps: Vec::new(),
    }
}

fn overlap(path: &str, hunk_index: usize) -> SemHunkOverlap {
    SemHunkOverlap {
        hunk_id: None,
        hunk_index,
        hunk_header: None,
        file_path: path.to_string(),
        old_file_path: None,
        old_range: None,
        new_range: None,
        overlaps_before: false,
        overlaps_after: true,
    }
}

fn analysis(changes: Vec<SemEmbeddedChange>) -> SemDiffAnalysis {
    SemDiffAnalysis {
        api_version: "sem-embedded-v1".to_string(),
        cache_key: "analysis".to_string(),
        summary: SemDiffSummary {
            file_count: 0,
            added_count: 0,
            modified_count: 0,
            deleted_count: 0,
            moved_count: 0,
            renamed_count: 0,
            reordered_count: 0,
            orphan_count: 0,
        },
        changes,
    }
}

fn atom(id: &str, path: &str) -> SemReviewAtom {
    SemReviewAtom {
        atom_id: id.to_string(),
        file_path: path.to_string(),
        old_file_path: None,
        role: None,
        semantic_kind: None,
        symbol_name: None,
        defined_symbols: Vec::new(),
        referenced_symbols: Vec::new(),
        old_range: None,
        new_range: None,
        hunk_indices: Vec::new(),
        changed_lines: 1,
        manual_review: false,
    }
}

fn plan_of(
    analysis: &SemDiffAnalysis,
    max_layers: usize,
    max_changes_per_layer: usize,
) -> SemReviewLayerPlan {
    review_layers_from_analysis(
        analysis,
        &SemLayerGenerationOptions { max_layers, max_changes_per_layer },
        &SemEmbeddedOptions::default(),
        &plain,
    )
}

fn attach(
    plan: &mut SemReviewLayerPlan,
    analysis: &SemDiffAnalysis,
    atoms: &[SemReviewAtom],
    max_layers: usize,
    max_changes_per_layer: usize,
) {
    attach_atoms_to_review_layers(
        plan,
        analysis,
        atoms,
        &SemLayerGenerationOptions { max_layers, max_changes_per_layer },
        &plain,
    );
}

// ---------------------------------------------------------------------------
// Roles

#[test]
fn paths_of_tests_and_configuration() {
    for path in ["a/test/b.rs", "A/Tests/b.rs", "x.test.ts", "x.SPEC.ts", "lib_test.rs"] {
        assert!(path_is_test(path), "{}", path);
    }
    for path in ["tests/a.rs", "test/a.rs", "a_test.rs.txt", "testing.rs"] {
        assert!(!path_is_test(path), "{}", path);
    }
    for path in ["Cargo.toml", "a.YAML", "b.yml", "c.json", "Cargo.lock"] {
        assert!(path_is_config(path), "{}", path);
    }
    for path in ["toml", "a.toml.rs", ""] {
        assert!(!path_is_config(path), "{}", path);
    }
}

#[test]
fn roles_ignore_case() {
    assert!(is_test_role("TESTS") && is_test_role("Test") && !is_test_role("testing"));
    assert!(is_config_role("Config") && !is_config_role("configuration"));
    for role in ["Foundation", "MODEL", "schema", "type"] {
        assert!(is_foundation_role(role));
    }
    assert!(!is_foundation_role("types"));
}

#[test]
fn keys_of_changes_and_atoms() {
    let key = |name: &str, kind: &str, path: &str| {
        layer_key_for_change(&change(name, kind, path, ChangeType::Modified))
    };
    assert_eq!(key("a", "function", "src/Tests/a.rs"), "tests");
    assert_eq!(key("a", "struct", "src/a.toml"), "config");
    for kind in ["struct", "class", "interface", "trait", "type", "enum"] {
        assert_eq!(key("a", kind, "src/a.rs"), "foundation");
    }
    assert_eq!(key("a", "function", "Src/Deep/a.rs"), "code:Src/Deep");
    assert_eq!(key("a", "function", "a.rs"), "code:.");

    let mut one = atom("id", "src/a.rs");
    assert_eq!(atom_layer_key(&one), "code:src");
    one.role = Some("Model".to_string());
    assert_eq!(atom_layer_key(&one), "foundation");
    one.role = Some("CONFIG".to_string());
    assert_eq!(atom_layer_key(&one), "config");
    one.role = Some("test".to_string());
    assert_eq!(atom_layer_key(&one), "tests");
    one.role = Some("model".to_string());
    one.file_path = "a.lock".to_string();
    assert_eq!(atom_layer_key(&one), "config");
}

#[test]
fn orders_of_keys_and_titles() {
    assert_eq!(layer_order("config"), 0);
    assert_eq!(layer_order("foundation"), 10);
    assert_eq!(layer_order("code:src"), 40);
    assert_eq!(layer_order("tests"), 90);
    assert_eq!(layer_order_key("Update LaTeST"), 90);
    assert_eq!(layer_order_key("Update Configuration"), 0);
    assert_eq!(layer_order_key("Update foundation types"), 10);
    assert_eq!(layer_order_key("Update helper"), 40);
}

// ---------------------------------------------------------------------------
// Plans

#[test]
fn layers_stand_in_the_order_of_their_roles() {
    let analysis = analysis(vec![
        change("t", "function", "src/tests/t.rs", ChangeType::Added),
        change("f", "function", "src/f.rs", ChangeType::Deleted),
        change("S", "struct", "src/s.rs", ChangeType::Modified),
        change("c", "entry", "a.toml", ChangeType::Modified),
        change("g", "function", "lib/g.rs", ChangeType::Modified),
    ]);
    let plan = plan_of(&analysis, 24, 24);
    let titles: Vec<&str> = plan.layers.iter().map(|layer| layer.title.as_str()).collect();
    assert_eq!(
        titles,
        vec![
            "Update configuration",
            "Update foundation types",
            "Update g",
            "Update f",
            "Update tests"
        ]
    );
    assert!(plan.manual_review_change_indices.is_empty());
    assert_eq!(plan.layers[4].depends_on_layer_ids, vec![plan.layers[3].id.clone()]);
    for layer in &plan.layers[..4] {
        assert!(layer.depends_on_layer_ids.is_empty());
    }
    assert_eq!(
        plan.layers[4].id,
        "sem-layer-4-sem-embedded-v1\0layer\0Update tests"
    );
    assert_eq!(plan.layers[4].summary, "1 semantic change across 1 file.");
    assert_eq!(
        plan.layers[4].rationale,
        "Grouped by semantic role `tests` with 1 added and 0 deleted entities."
    );
    assert_eq!(
        plan.layers[3].rationale,
        "Grouped by semantic role `code:src` with 0 added and 1 deleted entities."
    );
}

#[test]
fn a_layer_lists_its_files_entities_and_hunks_in_order() {
    let mut first = change("b", "function", "src/z.rs", ChangeType::Modified);
    first.hunk_overlaps = vec![overlap("src/z.rs", 5), overlap("src/z.rs", 2)];
    let mut second = change("a", "function", "src/y.rs", ChangeType::Modified);
    second.hunk_overlaps = vec![overlap("src/y.rs", 2), overlap("src/y.rs", 9)];
    let plan = plan_of(&analysis(vec![first, second]), 24, 24);
    assert_eq!(plan.layers.len(), 1);
    let layer = &plan.layers[0];
    assert_eq!(layer.title, "Update related code");
    assert_eq!(layer.summary, "2 semantic changes across 2 files.");
    assert_eq!(layer.file_paths, vec!["src/y.rs", "src/z.rs"]);
    assert_eq!(layer.entity_names, vec!["a", "b"]);
    assert_eq!(layer.hunk_indices, vec![2, 5, 9]);
    assert_eq!(layer.change_indices, vec![0, 1]);
}

#[test]
fn each_change_is_in_one_layer_or_left() {
    let mut changes = Vec::new();
    for i in 0..7 {
        changes.push(change(&format!("f{}", i), "function", "src/f.rs", ChangeType::Modified));
    }
    changes.insert(3, change("x", "orphan", "src/f.rs", ChangeType::Modified));
    let analysis = analysis(changes);
    let cases = [(24, 24), (2, 2), (24, 0), (0, 5), (1, 3), (3, 100)];
    for (max_layers, max_changes) in cases {
        let plan = plan_of(&analysis, max_layers, max_changes);
        assert!(plan.layers.len() <= max_layers);
        let mut seen: Vec<usize> = plan.manual_review_change_indices.clone();
        for (at, layer) in plan.layers.iter().enumerate() {
            assert_eq!(layer.index, at);
            assert!(!layer.change_indices.is_empty());
            assert!(layer.change_indices.len() <= max_changes.max(1));
            seen.extend(&layer.change_indices);
        }
        seen.sort_unstable();
        assert_eq!(seen, (0..8).collect::<Vec<usize>>());
        assert_eq!(plan.manual_review_change_indices[0], 3);
        for (i, one) in plan.layers.iter().enumerate() {
            for other in &plan.layers[i + 1..] {
                assert_ne!(one.id, other.id);
            }
        }
    }
    let plan = plan_of(&analysis, 2, 2);
    assert_eq!(plan.layers[0].change_indices, vec![0, 1]);
    assert_eq!(plan.layers[1].change_indices, vec![2, 4]);
    assert_eq!(plan.manual_review_change_indices, vec![3, 5, 6, 7]);
    assert_eq!(plan.layers[0].title, "Update src/f.rs");
}

// ---------------------------------------------------------------------------
// Matching

#[test]
fn an_atom_belongs_to_a_change_by_hunk_line_or_symbol() {
    let mut one = change("f", "function", "src/f.rs", ChangeType::Renamed);
    one.change.old_entity_name = Some("old_f".to_string());
    one.change.old_file_path = Some("src/old.rs".to_string());
    one.before_range = Some(SemEntityRange {
        file_path: "src/older.rs".to_string(),
        start_line: 10,
        end_line: 20,
    });
    one.hunk_overlaps = vec![overlap("src/f.rs", 4)];

    assert!(embedded_change_matches_atom(&one, &atom("a", "src/f.rs")));
    assert!(embedded_change_matches_atom(&one, &atom("a", "src/old.rs")));
    assert!(embedded_change_matches_atom(&one, &atom("a", "src/older.rs")));
    assert!(!embedded_change_matches_atom(&one, &atom("a", "src/other.rs")));

    let mut by_hunk = atom("a", "src/f.rs");
    by_hunk.hunk_indices = vec![4];
    assert!(embedded_change_matches_atom(&one, &by_hunk));
    by_hunk.hunk_indices = vec![5];
    assert!(!embedded_change_matches_atom(&one, &by_hunk));

    let mut by_line = atom("a", "src/f.rs");
    by_line.old_range = Some(SemLineRange { start_line: 20, end_line: 30 });
    assert!(embedded_change_matches_atom(&one, &by_line));
    by_line.old_range = Some(SemLineRange { start_line: 21, end_line: 30 });
    assert!(!embedded_change_matches_atom(&one, &by_line));
    by_line.referenced_symbols = vec!["old_f".to_string()];
    assert!(embedded_change_matches_atom(&one, &by_line));
    by_line.referenced_symbols = vec!["g".to_string()];
    by_line.defined_symbols = vec!["f".to_string()];
    assert!(embedded_change_matches_atom(&one, &by_line));
    by_line.defined_symbols = Vec::new();
    by_line.symbol_name = Some("f".to_string());
    assert!(embedded_change_matches_atom(&one, &by_line));
}

#[test]
fn lines_of_an_atom_may_begin_at_zero() {
    let entity = Some(SemEntityRange {
        file_path: String::new(),
        start_line: 0,
        end_line: 0,
    });
    assert!(range_overlaps_entity(Some(SemLineRange { start_line: 0, end_line: 1 }), &entity));
    assert!(!range_overlaps_entity(Some(SemLineRange { start_line: 1, end_line: 1 }), &entity));
    assert!(!range_overlaps_entity(None, &entity));
    assert!(!range_overlaps_entity(Some(SemLineRange { start_line: 0, end_line: 0 }), &None));
}

#[test]
fn an_atom_belongs_to_a_layer_by_hunk_or_symbol_in_its_files() {
    let mut one = change("f", "function", "src/f.rs", ChangeType::Modified);
    one.hunk_overlaps = vec![overlap("src/f.rs", 4)];
    let analysis = analysis(vec![one]);
    let plan = plan_of(&analysis, 24, 24);
    let layer = &plan.layers[0];
    let mut a = atom("a", "src/f.rs");
    a.hunk_indices = vec![4, 7];
    assert!(review_layer_matches_atom(layer, &[], &a));
    a.file_path = "src/g.rs".to_string();
    assert!(!review_layer_matches_atom(layer, &[], &a));
    a.old_file_path = Some("src/f.rs".to_string());
    assert!(review_layer_matches_atom(layer, &[], &a));
    a.hunk_indices = vec![7];
    assert!(!review_layer_matches_atom(layer, &[], &a));
    a.symbol_name = Some("f".to_string());
    assert!(review_layer_matches_atom(layer, &[], &a));
}

// ---------------------------------------------------------------------------
// Plans with atoms

#[test]
fn atoms_go_where_they_belong_then_by_file_then_on_their_own() {
    let analysis = analysis(vec![
        change("f", "function", "src/f.rs", ChangeType::Modified),
        change("g", "function", "lib/g.rs", ChangeType::Modified),
    ]);
    let mut plan = plan_of(&analysis, 24, 24);
    let changes_before: Vec<Vec<usize>> =
        plan.layers.iter().map(|layer| layer.change_indices.clone()).collect();
    let mut belongs = atom("belongs", "src/f.rs");
    belongs.symbol_name = Some("f".to_string());
    belongs.hunk_indices = vec![1];
    let mut by_file = atom("by-file", "src/f.rs");
    by_file.hunk_indices = vec![99];
    let mut alone = atom("alone", "docs/a.rs");
    alone.changed_lines = 3;
    let mut also_alone = atom("also", "docs/b.rs");
    also_alone.changed_lines = 4;
    also_alone.defined_symbols = vec!["s".to_string()];
    also_alone.old_file_path = Some("docs/c.rs".to_string());
    also_alone.hunk_indices = vec![8, 6];
    let mut manual = atom("manual", "src/f.rs");
    manual.manual_review = true;
    let atoms = vec![manual, by_file, belongs, alone, also_alone];
    attach(&mut plan, &analysis, &atoms, 24, 24);

    assert_eq!(plan.manual_review_atom_ids, vec!["manual"]);
    assert_eq!(plan.layers.len(), 3);
    let code = plan.layers.iter().find(|layer| layer.title == "Update f").expect("f");
    assert_eq!(code.atom_ids, vec!["belongs", "by-file"]);
    let docs = &plan.layers[2];
    assert_eq!(docs.index, 2);
    assert_eq!(docs.title, "Update s");
    assert_eq!(docs.summary, "2 review atoms across 3 files.");
    assert_eq!(
        docs.rationale,
        "Grouped by host-provided review atom role `code:docs` with 7 changed lines."
    );
    assert_eq!(docs.atom_ids, vec!["alone", "also"]);
    assert_eq!(docs.file_paths, vec!["docs/a.rs", "docs/b.rs", "docs/c.rs"]);
    assert_eq!(docs.hunk_indices, vec![6, 8]);
    assert_eq!(
        docs.id,
        "sem-atom-layer-2-sem-embedded-v1\0atom-layer\0Update s\0alone\nalso"
    );
    for (layer, before) in plan.layers.iter().zip(&changes_before) {
        assert_eq!(&layer.change_indices, before);
    }
    assert!(docs.change_indices.is_empty());
}

#[test]
fn atoms_leave_the_layers_of_changes_as_they_were() {
    let analysis = analysis(vec![
        change("helper", "function", "src/a.rs", ChangeType::Modified),
        change("helper_test", "function", "tests/a.rs", ChangeType::Modified),
        change("rest", "orphan", "src/b.rs", ChangeType::Modified),
    ]);
    let before = plan_of(&analysis, 24, 24);
    assert_eq!(before.layers.len(), 2);
    let mut plan = plan_of(&analysis, 24, 24);
    attach(&mut plan, &analysis, &[], 24, 24);
    assert_eq!(format!("{:?}", plan.layers), format!("{:?}", before.layers));
    assert!(plan.manual_review_atom_ids.is_empty());

    attach(&mut plan, &analysis, &[atom("a", "src/a.rs"), atom("d", "README.md")], 24, 24);
    assert_eq!(plan.layers.len(), 3);
    assert_eq!(plan.layers[0].atom_ids, vec!["a"]);
    assert_eq!(plan.manual_review_change_indices, before.manual_review_change_indices);
    for (layer, was) in plan.layers.iter().zip(&before.layers) {
        let mut layer = layer.clone();
        for id in &was.depends_on_layer_ids {
            assert!(layer.depends_on_layer_ids.contains(id));
        }
        layer.atom_ids = was.atom_ids.clone();
        layer.depends_on_layer_ids = was.depends_on_layer_ids.clone();
        assert_eq!(format!("{:?}", layer), format!("{:?}", was));
    }
}

#[test]
fn each_atom_is_in_a_layer_or_left() {
    let analysis = analysis(Vec::new());
    let atoms: Vec<SemReviewAtom> = (0..7)
        .map(|i| {
            let mut one = atom(&format!("a{}", i), &format!("d{}/x.rs", i % 2));
            one.manual_review = i == 4;
            one
        })
        .collect();
    for (max_layers, size) in [(24, 24), (1, 2), (2, 1), (0, 3), (3, 0)] {
        let mut plan = plan_of(&analysis, max_layers, size);
        attach(&mut plan, &analysis, &atoms, max_layers, size);
        assert!(plan.layers.len() <= max_layers);
        let mut seen = plan.manual_review_atom_ids.clone();
        for layer in &plan.layers {
            assert!(layer.atom_ids.len() <= size.max(1));
            seen.extend(layer.atom_ids.iter().cloned());
        }
        seen.sort();
        assert_eq!(seen, vec!["a0", "a1", "a2", "a3", "a4", "a5", "a6"]);
        assert!(plan.manual_review_atom_ids.contains(&"a4".to_string()));
        for (i, one) in plan.layers.iter().enumerate() {
            for other in &plan.layers[i + 1..] {
                assert_ne!(one.id, other.id);
            }
        }
    }
    let mut plan = plan_of(&analysis, 1, 2);
    attach(&mut plan, &analysis, &atoms, 1, 2);
    assert_eq!(plan.layers[0].atom_ids, vec!["a0", "a2"]);
    assert_eq!(plan.layers[0].title, "Update d0/x.rs");
    assert_eq!(
        plan.layers[0].rationale,
        "Grouped by host-provided review atom role `code:d0` with 2 changed lines."
    );
    assert_eq!(plan.manual_review_atom_ids, vec!["a1", "a3", "a4", "a5", "a6"]);
}

#[test]
fn layers_depend_on_those_that_bring_their_symbols() {
    let analysis = analysis(Vec::new());
    let mut maker = atom("maker", "a/x.rs");
    maker.defined_symbols = vec!["made".to_string(), String::new()];
    let mut user = atom("user", "b/x.rs");
    user.referenced_symbols = vec!["made".to_string(), String::new(), "nowhere".to_string()];
    let mut own = atom("own", "c/x.rs");
    own.symbol_name = Some("mine".to_string());
    own.referenced_symbols = vec!["mine".to_string()];
    let mut test = atom("test", "d/x.rs");
    test.role = Some("Tests".to_string());
    let atoms = vec![user, maker, test, own];
    let mut plan = plan_of(&analysis, 24, 24);
    attach(&mut plan, &analysis, &atoms, 24, 24);

    let id = |atom_id: &str| {
        plan.layers
            .iter()
            .find(|layer| layer.atom_ids == vec![atom_id.to_string()])
            .expect("a layer of its own")
            .id
            .clone()
    };
    let depends = |atom_id: &str| {
        plan.layers
            .iter()
            .find(|layer| layer.atom_ids == vec![atom_id.to_string()])
            .expect("a layer of its own")
            .depends_on_layer_ids
            .clone()
    };
    assert_eq!(depends("maker"), Vec::<String>::new());
    assert_eq!(depends("own"), Vec::<String>::new());
    assert_eq!(depends("user"), vec![id("maker")]);
    let mut both = vec![id("maker"), id("own")];
    both.sort();
    assert_eq!(depends("test"), both);
}

#[test]
fn an_id_given_twice_stands_once_and_the_last_atom_counts() {
    let analysis = analysis(Vec::new());
    let mut first = atom("same", "a/x.rs");
    first.referenced_symbols = vec!["s".to_string()];
    let second = atom("same", "a/x.rs");
    let mut maker = atom("maker", "b/x.rs");
    maker.symbol_name = Some("s".to_string());
    let mut plan = plan_of(&analysis, 24, 24);
    attach(&mut plan, &analysis, &[first, second, maker], 24, 24);
    let layer = plan.layers.iter().find(|l| l.atom_ids == vec!["same"]).expect("a layer");
    assert!(layer.depends_on_layer_ids.is_empty());
}

#[test]
fn lines_are_counted_layer_by_layer() {
    let analysis = analysis(Vec::new());
    let plan = plan_of(&analysis, 24, 1);
    let mut large = atom("large", "a/x.rs");
    large.changed_lines = usize::MAX;
    let one = atom("one", "a/x.rs");
    let options = |max_layers, max_changes_per_layer| SemLayerGenerationOptions {
        max_layers,
        max_changes_per_layer,
    };
    let atoms = [large, one];
    assert!(can_count_lines(&plan, &analysis, &atoms, &options(24, 1)));
    assert!(!can_count_lines(&plan, &analysis, &atoms, &options(24, 2)));
    assert!(can_count_lines(&plan, &analysis, &atoms, &options(0, 2)));
    let mut plan = plan;
    attach(&mut plan, &analysis, &atoms, 24, 1);
    assert!(plan.layers[0].rationale.ends_with(&format!("with {} changed lines.", usize::MAX)));
    assert!(plan.layers[1].rationale.ends_with("with 1 changed line."));

    let try_with = |layer_options: &SemLayerGenerationOptions| {
        try_generate_review_layers_for_atoms(
            &[],
            &atoms,
            layer_options,
            &SemEmbeddedOptions::default(),
            &ParserRegistry { parses: Vec::new() },
            &DiffResult {
                changes: Vec::new(),
                file_count: 0,
                added_count: 0,
                modified_count: 0,
                deleted_count: 0,
                moved_count: 0,
                renamed_count: 0,
                reordered_count: 0,
                orphan_count: 0,
            },
            &plain,
        )
    };
    assert!(try_with(&options(24, 2)).is_none());
    let tried = try_with(&options(24, 1)).expect("lines can be counted");
    assert_eq!(format!("{:?}", tried.layers), format!("{:?}", plan.layers));
}
