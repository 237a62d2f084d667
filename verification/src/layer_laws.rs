//! What holds of every review plan.

use vstd::prelude::*;

use crate::collections::{increasing, lemma_counted_exists, lemma_listed_exists};
use crate::groups::{
    groups_of, has_key, indices_where, lemma_chunk_pair, lemma_chunks, lemma_groups,
    lemma_indices_in_order, lemma_rest_after_chunk, lemma_rest_comes_last, rest_of, ungrouped,
    LayerGroup,
};
use crate::hash::stable_key;
use crate::keys::review_layer_key;
use crate::layers::{
    change_chunks, change_groups, change_layer, hunks_of, is_of_type, layer_keys,
    layer_plan, layer_size, name_of, path_of, picked,
};
use crate::model::ChangeType;
use crate::order::{key_before, key_fn, lemma_sorted_by};
use crate::role_laws::{
    change_plays, law_everything_plays_one_role, lemma_change_word, lemma_rank, lemma_role_words,
    lies_in, rank, role_word, ReviewRole,
};
use crate::seqs::{flattened, lemma_flattened_contains};
use crate::text::{decimal, lemma_text_before_prefix, lemma_text_before_total, text_before};
use crate::types::{
    AnalysisView, EmbeddedChangeView, LayerView, OptionsView, SemLayerGenerationOptions,
};

verus! {

// ---------------------------------------------------------------------------
// What a layer lists

/// Whether one of the changes of a layer is of an entity with a name.
pub open spec fn has_change_named(
    layer: LayerView,
    changes: Seq<EmbeddedChangeView>,
    name: Seq<char>,
) -> bool {
    exists|k: int|
        0 <= k < layer.change_indices.len() && changes[(#[trigger] layer.change_indices[k]) as int].change.entity_name
            == name
}

/// Whether one of the changes of a layer is in a file.
pub open spec fn has_change_in(
    layer: LayerView,
    changes: Seq<EmbeddedChangeView>,
    path: Seq<char>,
) -> bool {
    exists|k: int|
        0 <= k < layer.change_indices.len() && changes[(#[trigger] layer.change_indices[k]) as int].change.file_path
            == path
}

/// Whether one of the changes of a layer is touched by a hunk.
pub open spec fn has_change_touched_by(
    layer: LayerView,
    changes: Seq<EmbeddedChangeView>,
    hunk: usize,
) -> bool {
    exists|k: int, o: int|
        {
            let overlaps = changes[layer.change_indices[k] as int].hunk_overlaps;
            &&& 0 <= k < layer.change_indices.len()
            &&& 0 <= o < overlaps.len()
            &&& (#[trigger] changes[layer.change_indices[k] as int].hunk_overlaps[o]).hunk_index
                == hunk
        }
}

/// A layer of changes lists just the names, the files and the hunks of its
/// changes: the names are those that the entities have now, and each list is in
/// order and without repeats.
pub proof fn law_a_layer_lists_what_its_changes_hold<H: Fn(&str) -> String>(
    hash: H,
    analysis: AnalysisView,
    layer_options: SemLayerGenerationOptions,
    options: OptionsView,
    i: int,
)
    requires
        analysis.changes.len() <= usize::MAX,
        0 <= i < layer_plan(hash, analysis, layer_options, options).layers.len(),
    ensures
        ({
            let layer = layer_plan(hash, analysis, layer_options, options).layers[i];
            let changes = analysis.changes;
            &&& forall|k: int|
                0 <= k < layer.change_indices.len() ==> (#[trigger] layer.change_indices[k])
                    < changes.len()
            &&& forall|name: Seq<char>| #[trigger]
                layer.entity_names.contains(name) <==> has_change_named(layer, changes, name)
            &&& forall|path: Seq<char>| #[trigger]
                layer.file_paths.contains(path) <==> has_change_in(layer, changes, path)
            &&& forall|hunk: usize| #[trigger]
                layer.hunk_indices.contains(hunk) <==> has_change_touched_by(layer, changes, hunk)
            &&& forall|a: int, b: int|
                0 <= a < b < layer.entity_names.len() ==> text_before(
                    #[trigger] layer.entity_names[a],
                    #[trigger] layer.entity_names[b],
                )
            &&& forall|a: int, b: int|
                0 <= a < b < layer.file_paths.len() ==> text_before(
                    #[trigger] layer.file_paths[a],
                    #[trigger] layer.file_paths[b],
                )
            &&& forall|a: int, b: int|
                0 <= a < b < layer.hunk_indices.len() ==> #[trigger] layer.hunk_indices[a]
                    < #[trigger] layer.hunk_indices[b]
            &&& layer.atom_ids.len() == 0
        }),
{
    let layer = layer_plan(hash, analysis, layer_options, options).layers[i];
    let changes = analysis.changes;
    let chunk = change_chunks(changes, layer_options)[i];
    lemma_layer_fields(hash, analysis, layer_options, options, i);
    let inside = picked(changes, chunk.indices);
    let names = inside.map_values(name_of());
    let paths = inside.map_values(path_of());
    let hunks = inside.map_values(hunks_of());
    names.lemma_cardinality_of_set();
    paths.lemma_cardinality_of_set();
    lemma_listed_exists(names.to_set());
    lemma_listed_exists(paths.to_set());
    lemma_counted_exists(flattened(hunks).to_set());
    assert forall|k: int| 0 <= k < layer.change_indices.len() implies (
    #[trigger] layer.change_indices[k]) < changes.len() by {
        lemma_chunk_key(changes, layer_options, i, k);
    }
    assert forall|name: Seq<char>| #[trigger] layer.entity_names.contains(name)
        <==> has_change_named(layer, changes, name) by {
        assert(layer.entity_names.contains(name) <==> layer.entity_names.to_set().contains(name));
        if names.contains(name) {
            let k = choose|k: int| 0 <= k < names.len() && names[k] == name;
            assert(changes[layer.change_indices[k] as int].change.entity_name == name);
        }
        if has_change_named(layer, changes, name) {
            let k = choose|k: int|
                0 <= k < layer.change_indices.len() && changes[(
                #[trigger] layer.change_indices[k]) as int].change.entity_name == name;
            assert(names[k] == name);
        }
    }
    assert forall|path: Seq<char>| #[trigger] layer.file_paths.contains(path) <==> has_change_in(
        layer,
        changes,
        path,
    ) by {
        assert(layer.file_paths.contains(path) <==> layer.file_paths.to_set().contains(path));
        if paths.contains(path) {
            let k = choose|k: int| 0 <= k < paths.len() && paths[k] == path;
            assert(changes[layer.change_indices[k] as int].change.file_path == path);
        }
        if has_change_in(layer, changes, path) {
            let k = choose|k: int|
                0 <= k < layer.change_indices.len() && changes[(
                #[trigger] layer.change_indices[k]) as int].change.file_path == path;
            assert(paths[k] == path);
        }
    }
    assert forall|hunk: usize| #[trigger] layer.hunk_indices.contains(hunk)
        <==> has_change_touched_by(layer, changes, hunk) by {
        assert(layer.hunk_indices.contains(hunk) <==> layer.hunk_indices.to_set().contains(hunk));
        lemma_flattened_contains(hunks, hunk);
        if flattened(hunks).contains(hunk) {
            let k = choose|k: int| 0 <= k < hunks.len() && (#[trigger] hunks[k]).contains(hunk);
            let o = choose|o: int| 0 <= o < hunks[k].len() && hunks[k][o] == hunk;
            assert(changes[layer.change_indices[k] as int].hunk_overlaps[o].hunk_index == hunk);
        }
        if has_change_touched_by(layer, changes, hunk) {
            let (k, o) = choose|k: int, o: int|
                {
                    let overlaps = changes[layer.change_indices[k] as int].hunk_overlaps;
                    &&& 0 <= k < layer.change_indices.len()
                    &&& 0 <= o < overlaps.len()
                    &&& (
                    #[trigger] changes[layer.change_indices[k] as int].hunk_overlaps[o]).hunk_index
                        == hunk
                };
            assert(hunks[k][o] == hunk);
            assert(hunks[k].contains(hunk));
        }
    }
}

proof fn lemma_layer_fields<H: Fn(&str) -> String>(
    hash: H,
    analysis: AnalysisView,
    layer_options: SemLayerGenerationOptions,
    options: OptionsView,
    i: int,
)
    requires
        0 <= i < layer_plan(hash, analysis, layer_options, options).layers.len(),
    ensures
        ({
            let layer = layer_plan(hash, analysis, layer_options, options).layers[i];
            let chunks = change_chunks(analysis.changes, layer_options);
            let plain = change_layer(hash, i as nat, chunks[i], analysis.changes);
            &&& i < chunks.len()
            &&& layer == (LayerView { depends_on_layer_ids: layer.depends_on_layer_ids, ..plain })
        }),
{
}

// ---------------------------------------------------------------------------
// What a layer is about

/// The ending of what is counted.
pub open spec fn ending(count: nat) -> Seq<char> {
    if count == 1 {
        ""@
    } else {
        "s"@
    }
}

/// Whether a layer holds changes of one role only and, for code, of one
/// directory, and says so.
pub open spec fn is_layer_of(
    layer: LayerView,
    changes: Seq<EmbeddedChangeView>,
    role: ReviewRole,
    dir: Seq<char>,
) -> bool {
    &&& forall|k: int|
        0 <= k < layer.change_indices.len() ==> {
            let change = changes[(#[trigger] layer.change_indices[k]) as int];
            &&& change.change.entity_type != "orphan"@
            &&& change_plays(change, role)
            &&& role is Code ==> lies_in(change.change.file_path, dir)
        }
    &&& layer.title == match role {
        ReviewRole::Configuration => "Update configuration"@,
        ReviewRole::Foundation => "Update foundation types"@,
        ReviewRole::Tests => "Update tests"@,
        ReviewRole::Code => if layer.entity_names.len() == 1 {
            "Update "@ + layer.entity_names[0]
        } else if layer.file_paths.len() == 1 {
            "Update "@ + layer.file_paths[0]
        } else {
            "Update related code"@
        },
    }
    &&& layer.summary == decimal(layer.change_indices.len()) + " semantic change"@ + ending(
        layer.change_indices.len(),
    ) + " across "@ + decimal(layer.file_paths.len()) + " file"@ + ending(layer.file_paths.len())
        + "."@
    &&& layer.rationale == "Grouped by semantic role `"@ + role_word(role, dir) + "` with "@
        + decimal(
        layer.change_indices.filter(
            |v: usize| changes[v as int].change.change_type == ChangeType::Added,
        ).len(),
    ) + " added and "@ + decimal(
        layer.change_indices.filter(
            |v: usize| changes[v as int].change.change_type == ChangeType::Deleted,
        ).len(),
    ) + " deleted entities."@
}

proof fn lemma_count_of_picked(
    changes: Seq<EmbeddedChangeView>,
    indices: Seq<usize>,
    kind: ChangeType,
)
    ensures
        picked(changes, indices).filter(is_of_type(kind)).len() == indices.filter(
            |v: usize| changes[v as int].change.change_type == kind,
        ).len(),
    decreases indices.len(),
{
    reveal(Seq::filter);
    if indices.len() > 0 {
        let front = indices.drop_last();
        lemma_count_of_picked(changes, front, kind);
        assert(picked(changes, indices).drop_last() =~= picked(changes, front));
    }
}

/// Where the changes of a chunk come from: they all have its key.
proof fn lemma_chunk_key(
    changes: Seq<EmbeddedChangeView>,
    layer_options: SemLayerGenerationOptions,
    i: int,
    k: int,
)
    requires
        changes.len() <= usize::MAX,
        0 <= i < change_chunks(changes, layer_options).len(),
        0 <= k < change_chunks(changes, layer_options)[i].indices.len(),
    ensures
        ({
            let v = change_chunks(changes, layer_options)[i].indices[k];
            &&& v < changes.len()
            &&& layer_keys(changes)[v as int] == Some(
                change_chunks(changes, layer_options)[i].key,
            )
        }),
{
    let keys = layer_keys(changes);
    let groups = change_groups(changes);
    lemma_sorted_by(groups_of(keys), key_fn::<LayerGroup>());
    assert forall|g: int| 0 <= g < groups.len() implies increasing(
        (#[trigger] groups[g]).indices,
    ) by {
        lemma_groups(keys, groups, g, g);
    }
    let from = lemma_chunk_pair(
        groups,
        layer_size(layer_options),
        layer_options.max_layers as nat,
        i,
        i,
        k,
        k,
    );
    lemma_groups(keys, groups, from.0, from.0);
    assert(groups[from.0].indices.contains(change_chunks(changes, layer_options)[i].indices[k]));
}

/// A layer holds changes of one role and, for code, of one directory. Its title
/// is that of its role; code is called after the only entity, or else the only
/// file, that it changes. Its summary counts changes and files, its rationale
/// what is added and deleted. No layer holds a change that belongs to no entity.
pub proof fn law_a_layer_is_about_one_role<H: Fn(&str) -> String>(
    hash: H,
    analysis: AnalysisView,
    layer_options: SemLayerGenerationOptions,
    options: OptionsView,
    i: int,
)
    requires
        analysis.changes.len() <= usize::MAX,
        0 <= i < layer_plan(hash, analysis, layer_options, options).layers.len(),
    ensures
        ({
            let layer = layer_plan(hash, analysis, layer_options, options).layers[i];
            &&& exists|role: ReviewRole, dir: Seq<char>| #[trigger]
                is_layer_of(layer, analysis.changes, role, dir)
            &&& layer.index == i
            &&& layer.id == "sem-layer-"@ + decimal(i as nat) + "-"@ + stable_key(
                hash,
                "layer"@,
                seq![layer.title],
            )
        }),
{
    let layer = layer_plan(hash, analysis, layer_options, options).layers[i];
    let changes = analysis.changes;
    let chunks = change_chunks(changes, layer_options);
    let chunk = chunks[i];
    lemma_layer_fields(hash, analysis, layer_options, options, i);
    lemma_chunks(
        change_groups(changes),
        layer_size(layer_options),
        layer_options.max_layers as nat,
    );
    assert(chunk.indices.len() > 0);
    assert(i < layer_options.max_layers);
    lemma_chunk_key(changes, layer_options, i, 0);
    let first = changes[chunk.indices[0] as int];
    let (role, dir) = lemma_role_of_change(first);
    lemma_change_word(first, role, dir);
    assert(chunk.key == role_word(role, dir));
    assert forall|k: int| 0 <= k < layer.change_indices.len() implies {
        let change = changes[(#[trigger] layer.change_indices[k]) as int];
        &&& change.change.entity_type != "orphan"@
        &&& change_plays(change, role)
        &&& role is Code ==> lies_in(change.change.file_path, dir)
    } by {
        let change = changes[layer.change_indices[k] as int];
        lemma_chunk_key(changes, layer_options, i, k);
        let (own, own_dir) = lemma_role_of_change(change);
        lemma_change_word(change, own, own_dir);
        lemma_role_words(role, dir, own, own_dir);
    }
    let inside = picked(changes, chunk.indices);
    let names = inside.map_values(name_of()).to_set();
    let paths = inside.map_values(path_of()).to_set();
    inside.map_values(name_of()).lemma_cardinality_of_set();
    inside.map_values(path_of()).lemma_cardinality_of_set();
    lemma_listed_exists(names);
    lemma_listed_exists(paths);
    lemma_role_words(role, dir, ReviewRole::Configuration, dir);
    lemma_role_words(role, dir, ReviewRole::Foundation, dir);
    lemma_role_words(role, dir, ReviewRole::Tests, dir);
    lemma_count_of_picked(changes, chunk.indices, ChangeType::Added);
    lemma_count_of_picked(changes, chunk.indices, ChangeType::Deleted);
    assert(is_layer_of(layer, changes, role, dir));
}

proof fn lemma_role_of_change(change: EmbeddedChangeView) -> (found: (ReviewRole, Seq<char>))
    ensures
        change_plays(change, found.0),
        lies_in(change.change.file_path, found.1),
{
    law_everything_plays_one_role(
        change,
        arbitrary(),
        change.change.file_path,
        ReviewRole::Code,
        ReviewRole::Code,
        Seq::empty(),
        Seq::empty(),
    );
    (
        choose|role: ReviewRole| #[trigger] change_plays(change, role),
        choose|dir: Seq<char>| #[trigger] lies_in(change.change.file_path, dir),
    )
}

// ---------------------------------------------------------------------------
// How layers stand

/// Layers stand in the order of their roles: configuration, foundations, code,
/// tests; layers of code in the order of their directories. Of two layers of one
/// role, and for code of one directory, the first is full, and its changes come
/// before those of the second. In a layer changes keep their order.
pub proof fn law_layers_follow_roles_and_directories<H: Fn(&str) -> String>(
    hash: H,
    analysis: AnalysisView,
    layer_options: SemLayerGenerationOptions,
    options: OptionsView,
    i: int,
    j: int,
    role: ReviewRole,
    dir: Seq<char>,
    later_role: ReviewRole,
    later_dir: Seq<char>,
    a: int,
    b: int,
)
    requires
        analysis.changes.len() <= usize::MAX,
        0 <= i <= j < layer_plan(hash, analysis, layer_options, options).layers.len(),
        is_layer_of(
            layer_plan(hash, analysis, layer_options, options).layers[i],
            analysis.changes,
            role,
            dir,
        ),
        is_layer_of(
            layer_plan(hash, analysis, layer_options, options).layers[j],
            analysis.changes,
            later_role,
            later_dir,
        ),
        0 <= a < layer_plan(hash, analysis, layer_options, options).layers[i].change_indices.len(),
        0 <= b < layer_plan(hash, analysis, layer_options, options).layers[j].change_indices.len(),
    ensures
        ({
            let first = layer_plan(hash, analysis, layer_options, options).layers[i];
            let second = layer_plan(hash, analysis, layer_options, options).layers[j];
            &&& rank(role) <= rank(later_role)
            &&& role is Code && later_role is Code ==> dir == later_dir || text_before(
                dir,
                later_dir,
            )
            &&& i < j && role == later_role && (role is Code ==> dir == later_dir) ==> {
                &&& first.change_indices[a] < second.change_indices[b]
                &&& first.change_indices.len() == if layer_options.max_changes_per_layer > 1 {
                    layer_options.max_changes_per_layer as int
                } else {
                    1
                }
            }
            &&& i == j && a < b ==> first.change_indices[a] < second.change_indices[b]
        }),
{
    let changes = analysis.changes;
    let keys = layer_keys(changes);
    let groups = change_groups(changes);
    let chunks = change_chunks(changes, layer_options);
    let order = key_fn::<LayerGroup>();
    let first = layer_plan(hash, analysis, layer_options, options).layers[i];
    let second = layer_plan(hash, analysis, layer_options, options).layers[j];
    lemma_layer_fields(hash, analysis, layer_options, options, i);
    lemma_layer_fields(hash, analysis, layer_options, options, j);
    lemma_sorted_by(groups_of(keys), order);
    assert forall|g: int| 0 <= g < groups.len() implies increasing(
        (#[trigger] groups[g]).indices,
    ) by {
        lemma_groups(keys, groups, g, g);
    }
    let from = lemma_chunk_pair(
        groups,
        layer_size(layer_options),
        layer_options.max_layers as nat,
        i,
        j,
        a,
        b,
    );
    lemma_groups(keys, groups, from.0, from.1);
    lemma_chunk_key(changes, layer_options, i, a);
    lemma_chunk_key(changes, layer_options, j, b);
    let x = changes[first.change_indices[a] as int];
    let y = changes[second.change_indices[b] as int];
    lemma_change_word(x, role, dir);
    lemma_change_word(y, later_role, later_dir);
    assert(groups[from.0].key == role_word(role, dir));
    assert(groups[from.1].key == role_word(later_role, later_dir));
    assert(!key_before(order(groups[from.1]), order(groups[from.0])));
    lemma_rank(role, dir);
    lemma_rank(later_role, later_dir);
    if role is Code && later_role is Code {
        lemma_text_before_prefix("code:"@, later_dir, dir);
        lemma_text_before_total(dir, later_dir);
    }
}

// ---------------------------------------------------------------------------
// What is left

/// What is left for manual review are first all changes that belong to no
/// entity, in order, and then changes of entities that there was no room for:
/// there are then as many layers as asked for.
pub proof fn law_what_is_left_comes_last<H: Fn(&str) -> String>(
    hash: H,
    analysis: AnalysisView,
    layer_options: SemLayerGenerationOptions,
    options: OptionsView,
)
    requires
        analysis.changes.len() <= usize::MAX,
    ensures
        ({
            let plan = layer_plan(hash, analysis, layer_options, options);
            let manual = plan.manual_review_change_indices;
            let changes = analysis.changes;
            exists|n: int|
                {
                    &&& 0 <= n <= manual.len()
                    &&& #[trigger] manual.take(n) == indices_where(
                        changes.len(),
                        |v: int| changes[v].change.entity_type == "orphan"@,
                    )
                    &&& n < manual.len() ==> plan.layers.len() == layer_options.max_layers
                    &&& forall|k: int|
                        n <= k < manual.len() ==> {
                            &&& (#[trigger] manual[k]) < changes.len()
                            &&& changes[manual[k] as int].change.entity_type != "orphan"@
                        }
                }
        }),
{
    let plan = layer_plan(hash, analysis, layer_options, options);
    let manual = plan.manual_review_change_indices;
    let changes = analysis.changes;
    let keys = layer_keys(changes);
    let groups = change_groups(changes);
    let size = layer_size(layer_options);
    let room = layer_options.max_layers as nat;
    let orphans = ungrouped(keys);
    let rest = rest_of(groups, size, room);
    let n = orphans.len() as int;
    let is_orphan = |v: int| changes[v].change.entity_type == "orphan"@;
    assert(manual.take(n) =~= orphans);
    lemma_same_indices(changes.len(), has_key(keys, None), is_orphan);
    lemma_chunks(groups, size, room);
    lemma_sorted_by(groups_of(keys), key_fn::<LayerGroup>());
    assert forall|k: int| n <= k < manual.len() implies {
        &&& (#[trigger] manual[k]) < changes.len()
        &&& changes[manual[k] as int].change.entity_type != "orphan"@
    } by {
        let v = manual[k];
        assert(rest[k - n] == v);
        let g = lemma_rest_comes_last(groups, size, room, k - n);
        lemma_groups(keys, groups, g, g);
        assert(groups[g].indices.contains(v));
    }
}

/// A change of an entity that is left would not stand before one that is placed:
/// its role, or for code its directory, comes later, or it is itself behind the
/// other.
pub proof fn law_what_is_left_would_come_later<H: Fn(&str) -> String>(
    hash: H,
    analysis: AnalysisView,
    layer_options: SemLayerGenerationOptions,
    options: OptionsView,
    i: int,
    a: int,
    left: usize,
    role: ReviewRole,
    dir: Seq<char>,
    left_role: ReviewRole,
    left_dir: Seq<char>,
)
    requires
        analysis.changes.len() <= usize::MAX,
        0 <= i < layer_plan(hash, analysis, layer_options, options).layers.len(),
        is_layer_of(
            layer_plan(hash, analysis, layer_options, options).layers[i],
            analysis.changes,
            role,
            dir,
        ),
        0 <= a < layer_plan(hash, analysis, layer_options, options).layers[i].change_indices.len(),
        layer_plan(hash, analysis, layer_options, options).manual_review_change_indices.contains(
            left,
        ),
        left < analysis.changes.len(),
        analysis.changes[left as int].change.entity_type != "orphan"@,
        change_plays(analysis.changes[left as int], left_role),
        lies_in(analysis.changes[left as int].change.file_path, left_dir),
    ensures
        ({
            let placed = layer_plan(
                hash,
                analysis,
                layer_options,
                options,
            ).layers[i].change_indices[a];
            &&& rank(role) <= rank(left_role)
            &&& role is Code && left_role is Code ==> dir == left_dir || text_before(dir, left_dir)
            &&& role == left_role && (role is Code ==> dir == left_dir) ==> placed < left
        }),
{
    let changes = analysis.changes;
    let keys = layer_keys(changes);
    let groups = change_groups(changes);
    let size = layer_size(layer_options);
    let room = layer_options.max_layers as nat;
    let order = key_fn::<LayerGroup>();
    let layer = layer_plan(hash, analysis, layer_options, options).layers[i];
    let manual = layer_plan(hash, analysis, layer_options, options).manual_review_change_indices;
    let orphans = ungrouped(keys);
    let rest = rest_of(groups, size, room);
    let k = choose|k: int| 0 <= k < manual.len() && manual[k] == left;
    lemma_indices_in_order(keys.len(), has_key(keys, None));
    if k < orphans.len() {
        assert(orphans[k] == left);
        assert(orphans.contains(left));
        assert(keys[left as int] is None);
    }
    let m = k - orphans.len();
    assert(rest[m] == left);
    lemma_layer_fields(hash, analysis, layer_options, options, i);
    lemma_sorted_by(groups_of(keys), order);
    assert forall|g: int| 0 <= g < groups.len() implies increasing(
        (#[trigger] groups[g]).indices,
    ) by {
        lemma_groups(keys, groups, g, g);
    }
    let from = lemma_rest_after_chunk(groups, size, room, i, a, m);
    lemma_groups(keys, groups, from.0, from.1);
    lemma_groups(keys, groups, from.1, from.0);
    let x = changes[layer.change_indices[a] as int];
    let y = changes[left as int];
    assert(groups[from.0].indices.contains(layer.change_indices[a]));
    assert(groups[from.1].indices.contains(left));
    lemma_change_word(x, role, dir);
    lemma_change_word(y, left_role, left_dir);
    assert(groups[from.0].key == role_word(role, dir));
    assert(groups[from.1].key == role_word(left_role, left_dir));
    assert(!key_before(order(groups[from.1]), order(groups[from.0])));
    lemma_rank(role, dir);
    lemma_rank(left_role, left_dir);
    if role is Code && left_role is Code {
        lemma_text_before_prefix("code:"@, left_dir, dir);
        lemma_text_before_total(dir, left_dir);
    }
}

proof fn lemma_same_indices(n: nat, a: spec_fn(int) -> bool, b: spec_fn(int) -> bool)
    requires
        forall|v: int| 0 <= v < n ==> #[trigger] a(v) == b(v),
    ensures
        indices_where(n, a) == indices_where(n, b),
    decreases n,
{
    if n > 0 {
        lemma_same_indices((n - 1) as nat, a, b);
        assert(a(n - 1) == b(n - 1));
    }
}

/// A plan says of the whole what it is made from.
pub proof fn law_a_plan_is_keyed_by_its_analysis<H: Fn(&str) -> String>(
    hash: H,
    analysis: AnalysisView,
    layer_options: SemLayerGenerationOptions,
    options: OptionsView,
)
    ensures
        ({
            let plan = layer_plan(hash, analysis, layer_options, options);
            &&& plan.api_version == "sem-embedded-v1"@
            &&& plan.cache_key == review_layer_key(
                hash,
                analysis.cache_key,
                layer_options,
                options,
            )
            &&& plan.warnings.len() == 0
            &&& plan.manual_review_atom_ids.len() == 0
        }),
{
}

} // verus!
