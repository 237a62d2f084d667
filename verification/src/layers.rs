//! Review layers: the changes of a diff, put together as they are reviewed.

use vstd::prelude::*;

use crate::analysis::{analysis_of, analyze_file_changes};
use crate::collections::{
    counted, lemma_concat_to_set, lemma_take_to_set, listed, NumberSet, StringSet,
};
use crate::groups::{
    chunks_of, group_indices, groups_of, has_key, indices_below, lemma_chunks,
    lemma_groups_partition, lemma_indices_below, lemma_indices_where, lemma_spread_contains,
    lemma_spread_sorted, rest_of, split_groups, spread, ungrouped, GroupView, LayerGroup,
};
use crate::hash::{is_content_hash, stable_cache_key, stable_key};
use crate::keys::{review_layer_cache_key, review_layer_key};
use crate::model::{ChangeType, DiffResult};
use crate::order::{in_order, key_before, key_fn, lemma_sorted_by, sort_keyed, sorted_by};
use crate::parses::ParserRegistry;
use crate::roles::{
    change_key, key_order, layer_key_for_change, layer_order_key, layer_title, title_of,
    title_order,
};
use crate::search::{has_part, lower};
use crate::seqs::{flattened, lemma_filter_step, lemma_flattened_step, push_item, slice_of};
use crate::text::{
    decimal, decimal_text, lemma_decimal_digits, lemma_decimal_injective, plural, plural_text,
    same_text,
};
use crate::types::{
    AnalysisView, EmbeddedChangeView, LayerView, OptionsView, OverlapView, PlanView,
    SemDiffAnalysis, SemEmbeddedChange, SemEmbeddedOptions, SemFileChange,
    SemLayerGenerationOptions, SemReviewLayer, SemReviewLayerPlan, SEM_EMBEDDED_API_VERSION,
};

verus! {

// ---------------------------------------------------------------------------
// One layer

/// The changes at some indices.
pub open spec fn picked(changes: Seq<EmbeddedChangeView>, indices: Seq<usize>) -> Seq<
    EmbeddedChangeView,
> {
    indices.map_values(|i: usize| changes[i as int])
}

/// The path of a changed entity.
pub open spec fn path_of() -> spec_fn(EmbeddedChangeView) -> Seq<char> {
    |change: EmbeddedChangeView| change.change.file_path
}

/// The name of a changed entity.
pub open spec fn name_of() -> spec_fn(EmbeddedChangeView) -> Seq<char> {
    |change: EmbeddedChangeView| change.change.entity_name
}

/// The indices of the hunks that touch a changed entity.
pub open spec fn hunks_of() -> spec_fn(EmbeddedChangeView) -> Seq<usize> {
    |change: EmbeddedChangeView|
        change.hunk_overlaps.map_values(|overlap: OverlapView| overlap.hunk_index)
}

/// Whether a change is of a kind.
pub open spec fn is_of_type(kind: ChangeType) -> spec_fn(EmbeddedChangeView) -> bool {
    |change: EmbeddedChangeView| change.change.change_type == kind
}

/// How many things a layer holds, and in how many files.
pub open spec fn summary_text(things: nat, what: Seq<char>, files: nat) -> Seq<char> {
    decimal(things) + what + plural(things) + " across "@ + decimal(files) + " file"@ + plural(files)
        + "."@
}

pub fn summary_of_counts(things: usize, what: &str, files: usize) -> (text: String)
    ensures
        text@ == summary_text(things as nat, what@, files as nat),
{
    let mut text = decimal_text(things as u64);
    text.append(what);
    text.append(plural_text(things));
    text.append(" across ");
    text.append(decimal_text(files as u64).as_str());
    text.append(" file");
    text.append(plural_text(files));
    text.append(".");
    text
}

/// The id of a layer: the kind of layer, where it stands, and a key.
pub open spec fn layer_id(kind: Seq<char>, index: nat, key: Seq<char>) -> Seq<char> {
    kind + decimal(index) + "-"@ + key
}

pub fn layer_id_text(kind: &str, index: usize, key: &str) -> (id: String)
    ensures
        id@ == layer_id(kind@, index as nat, key@),
{
    let mut id = kind.to_string();
    id.append(decimal_text(index as u64).as_str());
    id.append("-");
    id.append(key);
    id
}

/// Why changes are in one layer.
pub open spec fn change_rationale(key: Seq<char>, added: nat, deleted: nat) -> Seq<char> {
    "Grouped by semantic role `"@ + key + "` with "@ + decimal(added) + " added and "@ + decimal(
        deleted,
    ) + " deleted entities."@
}

/// The layer of a chunk of changes.
pub open spec fn change_layer<H: Fn(&str) -> String>(
    hash: H,
    index: nat,
    chunk: GroupView,
    changes: Seq<EmbeddedChangeView>,
) -> LayerView {
    let inside = picked(changes, chunk.indices);
    let paths = inside.map_values(path_of()).to_set();
    let names = inside.map_values(name_of()).to_set();
    let title = title_of(chunk.key, names, paths);
    LayerView {
        id: layer_id("sem-layer-"@, index, stable_key(hash, "layer"@, seq![title])),
        index: index as usize,
        title,
        summary: summary_text(chunk.indices.len(), " semantic change"@, paths.len()),
        rationale: change_rationale(
            chunk.key,
            inside.filter(is_of_type(ChangeType::Added)).len(),
            inside.filter(is_of_type(ChangeType::Deleted)).len(),
        ),
        depends_on_layer_ids: Seq::empty(),
        change_indices: chunk.indices,
        atom_ids: Seq::empty(),
        file_paths: listed(paths),
        hunk_indices: counted(flattened(inside.map_values(hunks_of())).to_set()),
        entity_names: listed(names),
    }
}

fn insert_hunks(hunks: &mut NumberSet, change: &SemEmbeddedChange)
    requires
        old(hunks).wf(),
    ensures
        final(hunks).wf(),
        final(hunks)@ == old(hunks)@.union(hunks_of()(change.deep_view()).to_set()),
{
    let ghost start = hunks@;
    let ghost all = hunks_of()(change.deep_view());
    let mut i: usize = 0;
    assert(hunks@ =~= start.union(all.take(0).to_set()));
    while i < change.hunk_overlaps.len()
        invariant
            i <= change.hunk_overlaps@.len(),
            all == hunks_of()(change.deep_view()),
            hunks.wf(),
            hunks@ == start.union(all.take(i as int).to_set()),
        decreases change.hunk_overlaps@.len() - i,
    {
        hunks.insert(change.hunk_overlaps[i].hunk_index);
        proof {
            assert(change.deep_view().hunk_overlaps[i as int]
                == change.hunk_overlaps@[i as int].deep_view());
            lemma_take_to_set(all, i as int);
            assert(hunks@ =~= start.union(all.take(i + 1).to_set()));
        }
        i = i + 1;
    }
    assert(all.take(i as int) =~= all);
}

/// Makes the layer of a chunk of changes.
pub fn layer_from_change_indices<H: Fn(&str) -> String>(
    index: usize,
    key: &str,
    change_indices: Vec<usize>,
    changes: &[SemEmbeddedChange],
    hash: &H,
) -> (layer: SemReviewLayer)
    requires
        is_content_hash(*hash),
        forall|i: int|
            0 <= i < change_indices@.len() ==> (#[trigger] change_indices@[i]) < changes@.len(),
    ensures
        layer.deep_view() == change_layer(
            *hash,
            index as nat,
            GroupView { key: key@, indices: change_indices@ },
            changes.deep_view(),
        ),
{
    let ghost inside = picked(changes.deep_view(), change_indices@);
    let ghost paths = inside.map_values(path_of());
    let ghost names = inside.map_values(name_of());
    let ghost hunks = inside.map_values(hunks_of());
    let mut file_paths = StringSet::new();
    let mut entity_names = StringSet::new();
    let mut hunk_indices = NumberSet::new();
    let mut additions: usize = 0;
    let mut deletions: usize = 0;
    let mut i: usize = 0;
    proof {
        reveal(Seq::filter);
        assert(file_paths@ =~= paths.take(0).to_set());
        assert(entity_names@ =~= names.take(0).to_set());
        assert(hunk_indices@ =~= flattened(hunks.take(0)).to_set());
    }
    while i < change_indices.len()
        invariant
            i <= change_indices@.len(),
            forall|j: int|
                0 <= j < change_indices@.len() ==> (#[trigger] change_indices@[j]) < changes@.len(),
            inside == picked(changes.deep_view(), change_indices@),
            paths == inside.map_values(path_of()),
            names == inside.map_values(name_of()),
            hunks == inside.map_values(hunks_of()),
            file_paths.wf(),
            entity_names.wf(),
            hunk_indices.wf(),
            file_paths@ == paths.take(i as int).to_set(),
            entity_names@ == names.take(i as int).to_set(),
            hunk_indices@ == flattened(hunks.take(i as int)).to_set(),
            additions == inside.take(i as int).filter(is_of_type(ChangeType::Added)).len(),
            deletions == inside.take(i as int).filter(is_of_type(ChangeType::Deleted)).len(),
            additions <= i,
            deletions <= i,
        decreases change_indices@.len() - i,
    {
        let change = &changes[change_indices[i]];
        proof {
            assert(inside[i as int] == change.deep_view());
            lemma_take_to_set(paths, i as int);
            lemma_take_to_set(names, i as int);
            lemma_flattened_step(hunks, i as int);
            lemma_concat_to_set(flattened(hunks.take(i as int)), hunks[i as int]);
            lemma_filter_step(inside, is_of_type(ChangeType::Added), i as int);
            lemma_filter_step(inside, is_of_type(ChangeType::Deleted), i as int);
        }
        file_paths.insert(change.change.file_path.clone());
        entity_names.insert(change.change.entity_name.clone());
        insert_hunks(&mut hunk_indices, change);
        match change.change.change_type {
            ChangeType::Added => {
                additions = additions + 1;
            },
            ChangeType::Deleted => {
                deletions = deletions + 1;
            },
            _ => {},
        }
        i = i + 1;
    }
    proof {
        assert(paths.take(i as int) =~= paths);
        assert(names.take(i as int) =~= names);
        assert(hunks.take(i as int) =~= hunks);
        assert(inside.take(i as int) =~= inside);
    }
    let title = layer_title(key, &entity_names, &file_paths);
    let mut parts: Vec<String> = Vec::new();
    push_item(&mut parts, title.clone());
    assert(parts.deep_view() =~= seq![title@]);
    let id = layer_id_text(
        "sem-layer-",
        index,
        stable_cache_key(hash, "layer", slice_of(&parts)).as_str(),
    );
    let mut rationale = "Grouped by semantic role `".to_string();
    rationale.append(key);
    rationale.append("` with ");
    rationale.append(decimal_text(additions as u64).as_str());
    rationale.append(" added and ");
    rationale.append(decimal_text(deletions as u64).as_str());
    rationale.append(" deleted entities.");
    let summary = summary_of_counts(change_indices.len(), " semantic change", file_paths.len());
    let layer = SemReviewLayer {
        id,
        index,
        title,
        summary,
        rationale,
        depends_on_layer_ids: Vec::new(),
        change_indices,
        atom_ids: Vec::new(),
        file_paths: file_paths.into_vec(),
        hunk_indices: hunk_indices.into_vec(),
        entity_names: entity_names.into_vec(),
    };
    proof {
        assert(layer.change_indices.deep_view() =~= layer.change_indices@);
        assert(layer.hunk_indices.deep_view() =~= layer.hunk_indices@);
        assert(layer.depends_on_layer_ids.deep_view() =~= Seq::empty());
        assert(layer.atom_ids.deep_view() =~= Seq::empty());
    }
    layer
}

// ---------------------------------------------------------------------------
// The plan

/// Whether a change belongs to no entity.
pub open spec fn is_orphan(change: EmbeddedChangeView) -> bool {
    change.change.entity_type == "orphan"@
}

/// The key of the layers of each change. A change that belongs to no entity
/// has none.
pub open spec fn layer_keys(changes: Seq<EmbeddedChangeView>) -> Seq<Option<Seq<char>>> {
    changes.map_values(
        |change: EmbeddedChangeView|
            if is_orphan(change) {
                None
            } else {
                Some(change_key(change))
            },
    )
}

/// How many changes a layer holds at most.
pub open spec fn layer_size(options: SemLayerGenerationOptions) -> nat {
    if options.max_changes_per_layer > 1 {
        options.max_changes_per_layer as nat
    } else {
        1
    }
}

pub fn layer_size_of(options: &SemLayerGenerationOptions) -> (size: usize)
    ensures
        size == layer_size(*options),
        size > 0,
{
    if options.max_changes_per_layer > 1 {
        options.max_changes_per_layer
    } else {
        1
    }
}

/// The changes in groups, in the order of their layers.
pub open spec fn change_groups(changes: Seq<EmbeddedChangeView>) -> Seq<GroupView> {
    sorted_by(groups_of(layer_keys(changes)), key_fn::<LayerGroup>())
}

/// The chunks of changes that become layers.
pub open spec fn change_chunks(
    changes: Seq<EmbeddedChangeView>,
    options: SemLayerGenerationOptions,
) -> Seq<GroupView> {
    chunks_of(change_groups(changes), layer_size(options), options.max_layers as nat)
}

/// The layers of the changes, as they are before they are linked.
pub open spec fn change_layers<H: Fn(&str) -> String>(
    hash: H,
    changes: Seq<EmbeddedChangeView>,
    options: SemLayerGenerationOptions,
) -> Seq<LayerView> {
    let chunks = change_chunks(changes, options);
    Seq::new(chunks.len(), |i: int| change_layer(hash, i as nat, chunks[i], changes))
}

/// A layer behind another: a layer of tests depends on the layer before it.
pub open spec fn behind(layer: LayerView, previous: LayerView) -> LayerView {
    if title_order(layer.title) >= 90 {
        LayerView {
            depends_on_layer_ids: layer.depends_on_layer_ids.push(previous.id),
            ..layer
        }
    } else {
        layer
    }
}

/// The layers, each test layer depending on the one before it.
pub open spec fn linked(layers: Seq<LayerView>) -> Seq<LayerView> {
    Seq::new(
        layers.len(),
        |i: int|
            if i > 0 {
                behind(layers[i], layers[i - 1])
            } else {
                layers[i]
            },
    )
}

/// The changes that no layer holds: those that belong to no entity, and those
/// that there was no room for.
pub open spec fn manual_changes(
    changes: Seq<EmbeddedChangeView>,
    options: SemLayerGenerationOptions,
) -> Seq<usize> {
    ungrouped(layer_keys(changes)) + rest_of(
        change_groups(changes),
        layer_size(options),
        options.max_layers as nat,
    )
}

/// The layers of an analyzed diff, and what no layer holds.
pub open spec fn layer_plan<H: Fn(&str) -> String>(
    hash: H,
    analysis: AnalysisView,
    layer_options: SemLayerGenerationOptions,
    options: OptionsView,
) -> PlanView {
    PlanView {
        api_version: SEM_EMBEDDED_API_VERSION@,
        cache_key: review_layer_key(hash, analysis.cache_key, layer_options, options),
        layers: linked(change_layers(hash, analysis.changes, layer_options)),
        manual_review_change_indices: manual_changes(analysis.changes, layer_options),
        manual_review_atom_ids: Seq::empty(),
        warnings: Seq::empty(),
    }
}

fn keys_of_changes(changes: &[SemEmbeddedChange]) -> (keys: Vec<Option<String>>)
    ensures
        keys.deep_view() == layer_keys(changes.deep_view()),
{
    let ghost all = layer_keys(changes.deep_view());
    let mut keys: Vec<Option<String>> = Vec::new();
    let mut i: usize = 0;
    assert(keys.deep_view() =~= all.take(0));
    while i < changes.len()
        invariant
            i <= changes@.len(),
            all == layer_keys(changes.deep_view()),
            keys.deep_view() == all.take(i as int),
        decreases changes@.len() - i,
    {
        let change = &changes[i];
        let key: Option<String> = if same_text(change.change.entity_type.as_str(), "orphan") {
            None
        } else {
            Some(layer_key_for_change(change))
        };
        assert(changes.deep_view()[i as int] == change.deep_view());
        push_item(&mut keys, key);
        assert(keys.deep_view() =~= all.take(i + 1));
        i = i + 1;
    }
    assert(all.take(i as int) =~= all);
    keys
}

fn link_layers(layers: Vec<SemReviewLayer>) -> (result: Vec<SemReviewLayer>)
    ensures
        result.deep_view() == linked(layers.deep_view()),
{
    let ghost all = layers.deep_view();
    let mut result: Vec<SemReviewLayer> = Vec::new();
    let mut previous: Option<String> = None;
    assert(result.deep_view() =~= linked(all).take(0));
    for layer in it: layers
        invariant
            it.seq() == layers@,
            all == layers.deep_view(),
            it.index() == 0 <==> previous is None,
            previous matches Some(id) ==> id@ == all[it.index() - 1].id,
            result.deep_view() == linked(all).take(it.index()),
    {
        let ghost i = it.index();
        let mut layer = layer;
        let ghost before = layer.deep_view();
        assert(before == all[i]);
        let id = layer.id.clone();
        if let Some(previous_id) = previous {
            if layer_order_key(layer.title.as_str()) >= 90 {
                push_item(&mut layer.depends_on_layer_ids, previous_id);
            }
        }
        assert(layer.deep_view() == linked(all)[i]);
        previous = Some(id);
        push_item(&mut result, layer);
        assert(result.deep_view() =~= linked(all).take(i + 1));
    }
    assert(linked(all).take(all.len() as int) =~= linked(all));
    result
}

/// Every index of a chunk of changes is that of a change.
proof fn lemma_chunk_indices(
    changes: Seq<EmbeddedChangeView>,
    options: SemLayerGenerationOptions,
    at: int,
    i: int,
)
    requires
        changes.len() <= usize::MAX,
        0 <= at < change_chunks(changes, options).len(),
        0 <= i < change_chunks(changes, options)[at].indices.len(),
    ensures
        change_chunks(changes, options)[at].indices[i] < changes.len(),
{
    broadcast use vstd::seq_lib::group_to_multiset_ensures;

    let chunks = change_chunks(changes, options);
    let v = chunks[at].indices[i];
    lemma_changes_partition(changes, options);
    lemma_spread_contains(chunks, at, i);
    let placed = spread(chunks) + manual_changes(changes, options);
    let k = choose|k: int| 0 <= k < spread(chunks).len() && spread(chunks)[k] == v;
    assert(placed[k] == v);
    assert(placed.to_multiset().contains(v));
    assert(indices_below(changes.len()).contains(v));
    lemma_indices_below(changes.len(), v);
}

/// The chunks and what is left for manual review hold each change once.
proof fn lemma_changes_partition(
    changes: Seq<EmbeddedChangeView>,
    options: SemLayerGenerationOptions,
)
    requires
        changes.len() <= usize::MAX,
    ensures
        (spread(change_chunks(changes, options)) + manual_changes(changes, options)).to_multiset()
            == indices_below(changes.len()).to_multiset(),
{
    broadcast use vstd::seq_lib::group_to_multiset_ensures;

    let keys = layer_keys(changes);
    let groups = change_groups(changes);
    let size = layer_size(options);
    let room = options.max_layers as nat;
    let inside = spread(change_chunks(changes, options));
    let rest = rest_of(groups, size, room);
    let none = ungrouped(keys);
    lemma_chunks(groups, size, room);
    lemma_spread_sorted(groups_of(keys), key_fn::<LayerGroup>());
    lemma_groups_partition(keys);
    vstd::seq_lib::lemma_multiset_commutative(inside, rest);
    vstd::seq_lib::lemma_multiset_commutative(none, rest);
    vstd::seq_lib::lemma_multiset_commutative(inside, none + rest);
    vstd::seq_lib::lemma_multiset_commutative(spread(groups_of(keys)), none);
    assert((inside + (none + rest)).to_multiset() =~= indices_below(changes.len()).to_multiset());
}

/// Puts the changes of an analyzed diff into layers.
pub fn review_layers_from_analysis<H: Fn(&str) -> String>(
    analysis: &SemDiffAnalysis,
    layer_options: &SemLayerGenerationOptions,
    options: &SemEmbeddedOptions,
    hash: &H,
) -> (plan: SemReviewLayerPlan)
    requires
        is_content_hash(*hash),
    ensures
        plan.deep_view() == layer_plan(
            *hash,
            analysis.deep_view(),
            *layer_options,
            options.deep_view(),
        ),
{
    let changes = slice_of(&analysis.changes);
    let ghost views = changes.deep_view();
    let keys = keys_of_changes(changes);
    let (groups, mut manual) = group_indices(slice_of(&keys));
    let sorted = sort_keyed(groups);
    let (chunks, mut rest) = split_groups(
        slice_of(&sorted),
        layer_size_of(layer_options),
        layer_options.max_layers,
    );
    manual.append(&mut rest);
    let ghost wanted = change_layers(*hash, views, *layer_options);
    let ghost pieces = change_chunks(views, *layer_options);
    let mut layers: Vec<SemReviewLayer> = Vec::new();
    let mut i: usize = 0;
    assert(layers.deep_view() =~= wanted.take(0));
    while i < chunks.len()
        invariant
            i <= chunks@.len(),
            is_content_hash(*hash),
            views == changes.deep_view(),
            wanted == change_layers(*hash, views, *layer_options),
            pieces == change_chunks(views, *layer_options),
            pieces == chunks.deep_view(),
            layers.deep_view() == wanted.take(i as int),
        decreases chunks@.len() - i,
    {
        let indices: Vec<usize> = chunks[i].indices.clone();
        proof {
            assert(indices@ =~= pieces[i as int].indices);
            assert(changes@.len() <= usize::MAX) by {
                let n: usize = changes.len();
            }
            assert forall|k: int| 0 <= k < indices@.len() implies (#[trigger] indices@[k])
                < changes@.len() by {
                lemma_chunk_indices(views, *layer_options, i as int, k);
            }
        }
        push_item(
            &mut layers,
            layer_from_change_indices(i, chunks[i].key.as_str(), indices, changes, hash),
        );
        assert(layers.deep_view() =~= wanted.take(i + 1));
        i = i + 1;
    }
    assert(wanted.take(i as int) =~= wanted);
    let plan = SemReviewLayerPlan {
        api_version: SEM_EMBEDDED_API_VERSION.to_string(),
        cache_key: review_layer_cache_key(
            analysis.cache_key.as_str(),
            layer_options,
            options,
            hash,
        ),
        layers: link_layers(layers),
        manual_review_change_indices: manual,
        manual_review_atom_ids: Vec::new(),
        warnings: Vec::new(),
    };
    proof {
        assert(plan.manual_review_change_indices.deep_view() =~= manual@);
        assert(plan.manual_review_atom_ids.deep_view() =~= Seq::empty());
        assert(plan.warnings.deep_view() =~= Seq::empty());
    }
    plan
}

/// Analyzes changed files and puts what changed into layers.
pub fn generate_review_layers<H: Fn(&str) -> String>(
    changes: &[SemFileChange],
    layer_options: &SemLayerGenerationOptions,
    options: &SemEmbeddedOptions,
    registry: &ParserRegistry,
    result: &DiffResult,
    hash: &H,
) -> (plan: SemReviewLayerPlan)
    requires
        is_content_hash(*hash),
    ensures
        plan.deep_view() == layer_plan(
            *hash,
            analysis_of(
                *hash,
                changes.deep_view(),
                options.deep_view(),
                registry.deep_view(),
                result.deep_view(),
            ),
            *layer_options,
            options.deep_view(),
        ),
{
    let analysis = analyze_file_changes(changes, options, registry, result, hash);
    review_layers_from_analysis(&analysis, layer_options, options, hash)
}

// ---------------------------------------------------------------------------
// Laws

/// The indices of the changes in all layers.
pub open spec fn placed_changes(layers: Seq<LayerView>) -> Seq<usize> {
    flattened(layers.map_values(|layer: LayerView| layer.change_indices))
}

/// Every change of a diff is in one layer or left for manual review: no change
/// is lost and none is placed twice.
pub proof fn law_each_change_is_placed_once<H: Fn(&str) -> String>(
    hash: H,
    analysis: AnalysisView,
    layer_options: SemLayerGenerationOptions,
    options: OptionsView,
)
    requires
        analysis.changes.len() <= usize::MAX,
    ensures
        ({
            let plan = layer_plan(hash, analysis, layer_options, options);
            (placed_changes(plan.layers) + plan.manual_review_change_indices).to_multiset()
                == indices_below(analysis.changes.len()).to_multiset()
        }),
{
    let plan = layer_plan(hash, analysis, layer_options, options);
    let chunks = change_chunks(analysis.changes, layer_options);
    assert(plan.layers.map_values(|layer: LayerView| layer.change_indices) =~= chunks.map_values(
        |group: GroupView| group.indices,
    ));
    lemma_changes_partition(analysis.changes, layer_options);
}

/// There are no more layers than asked for. Each holds changes, and no more of
/// them than asked for, and each knows where it stands.
pub proof fn law_layers_keep_to_the_options<H: Fn(&str) -> String>(
    hash: H,
    analysis: AnalysisView,
    layer_options: SemLayerGenerationOptions,
    options: OptionsView,
)
    ensures
        ({
            let layers = layer_plan(hash, analysis, layer_options, options).layers;
            &&& layers.len() <= layer_options.max_layers
            &&& forall|i: int|
                0 <= i < layers.len() ==> {
                    &&& 0 < (#[trigger] layers[i]).change_indices.len() <= layer_size(layer_options)
                    &&& layers[i].index == i
                }
        }),
{
    let layers = layer_plan(hash, analysis, layer_options, options).layers;
    let chunks = change_chunks(analysis.changes, layer_options);
    lemma_chunks(
        change_groups(analysis.changes),
        layer_size(layer_options),
        layer_options.max_layers as nat,
    );
    assert forall|i: int| 0 <= i < layers.len() implies {
        &&& 0 < (#[trigger] layers[i]).change_indices.len() <= layer_size(layer_options)
        &&& layers[i].index == i
    } by {
        assert(layers[i].change_indices == chunks[i].indices);
    }
}

/// A change of an entity is left for manual review only where there are as
/// many layers as asked for.
pub proof fn law_entities_are_left_only_for_want_of_room<H: Fn(&str) -> String>(
    hash: H,
    analysis: AnalysisView,
    layer_options: SemLayerGenerationOptions,
    options: OptionsView,
    change: usize,
)
    requires
        analysis.changes.len() <= usize::MAX,
        layer_plan(
            hash,
            analysis,
            layer_options,
            options,
        ).manual_review_change_indices.contains(change),
    ensures
        change < analysis.changes.len(),
        is_orphan(analysis.changes[change as int]) || layer_plan(
            hash,
            analysis,
            layer_options,
            options,
        ).layers.len() == layer_options.max_layers,
{
    broadcast use vstd::seq_lib::group_to_multiset_ensures;

    let changes = analysis.changes;
    let keys = layer_keys(changes);
    let rest = rest_of(
        change_groups(changes),
        layer_size(layer_options),
        layer_options.max_layers as nat,
    );
    let manual = manual_changes(changes, layer_options);
    let inside = spread(change_chunks(changes, layer_options));
    let k = choose|k: int| 0 <= k < manual.len() && manual[k] == change;
    lemma_changes_partition(changes, layer_options);
    assert((inside + manual)[inside.len() + k] == change);
    assert((inside + manual).to_multiset().contains(change));
    assert(indices_below(changes.len()).contains(change));
    lemma_indices_below(changes.len(), change);
    lemma_chunks(
        change_groups(changes),
        layer_size(layer_options),
        layer_options.max_layers as nat,
    );
    if rest.len() == 0 {
        assert(ungrouped(keys)[k] == change);
        lemma_indices_where(keys.len(), has_key(keys, None), k);
    }
}

/// Layers stand in the order of their roles: configuration, then foundations,
/// then code, then tests.
pub proof fn law_layers_are_in_the_order_of_their_roles(
    changes: Seq<EmbeddedChangeView>,
    layer_options: SemLayerGenerationOptions,
    i: int,
    j: int,
)
    requires
        0 <= i <= j < change_chunks(changes, layer_options).len(),
    ensures
        key_order(change_chunks(changes, layer_options)[i].key) <= key_order(
            change_chunks(changes, layer_options)[j].key,
        ),
{
    let groups = change_groups(changes);
    lemma_sorted_by(groups_of(layer_keys(changes)), key_fn::<LayerGroup>());
    lemma_chunk_keys(groups, layer_size(layer_options), layer_options.max_layers as nat, i, j);
}

/// Chunks stand in the order of their groups.
proof fn lemma_chunk_keys(groups: Seq<GroupView>, size: nat, room: nat, i: int, j: int)
    requires
        in_order(groups, key_fn::<LayerGroup>()),
        0 <= i <= j < chunks_of(groups, size, room).len(),
    ensures
        key_order(chunks_of(groups, size, room)[i].key) <= key_order(
            chunks_of(groups, size, room)[j].key,
        ),
        exists|k: int|
            0 <= k < groups.len() && (#[trigger] groups[k]).key == chunks_of(groups, size, room)[i].key,
    decreases groups.len(),
{
    let chunks = chunks_of(groups, size, room);
    let front = groups.drop_last();
    let before = chunks_of(front, size, room);
    let key = key_fn::<LayerGroup>();
    assert forall|a: int, b: int| 0 <= a <= b < front.len() implies !key_before(
        key(#[trigger] front[b]),
        key(#[trigger] front[a]),
    ) by {
        assert(!key_before(key(groups[b]), key(groups[a])));
    }
    if i < before.len() {
        lemma_chunk_keys(front, size, room, i, i);
        let k = choose|k: int| 0 <= k < front.len() && (#[trigger] front[k]).key == before[i].key;
        assert(groups[k].key == chunks[i].key);
        if j < before.len() {
            lemma_chunk_keys(front, size, room, i, j);
        } else {
            assert(!key_before(key(groups[groups.len() - 1]), key(groups[k])));
        }
    } else {
        assert(groups[groups.len() - 1].key == chunks[i].key);
    }
}

/// A layer depends on the one before it if its title speaks of tests, and on
/// no other layer.
pub proof fn law_layers_of_tests_depend_on_the_layer_before<H: Fn(&str) -> String>(
    hash: H,
    analysis: AnalysisView,
    layer_options: SemLayerGenerationOptions,
    options: OptionsView,
    i: int,
)
    requires
        0 <= i < layer_plan(hash, analysis, layer_options, options).layers.len(),
    ensures
        ({
            let layers = layer_plan(hash, analysis, layer_options, options).layers;
            layers[i].depends_on_layer_ids == if i > 0 && has_part(
                lower(layers[i].title),
                "test"@,
            ) {
                seq![layers[i - 1].id]
            } else {
                Seq::empty()
            }
        }),
{
    let layers = layer_plan(hash, analysis, layer_options, options).layers;
    let plain = change_layers(hash, analysis.changes, layer_options);
    assert(layers[i].title == plain[i].title);
    if i > 0 {
        assert(layers[i - 1].id == plain[i - 1].id);
        assert(Seq::empty().push(plain[i - 1].id) =~= seq![plain[i - 1].id]);
    }
}

/// Two ids of layers of one kind tell apart where their layers stand.
pub proof fn lemma_layer_ids(kind: Seq<char>, i: nat, a: Seq<char>, j: nat, b: Seq<char>)
    requires
        layer_id(kind, i, a) == layer_id(kind, j, b),
    ensures
        i == j,
{
    let x = layer_id(kind, i, a);
    let n = kind.len() + decimal(i).len();
    let m = kind.len() + decimal(j).len();
    reveal_strlit("-");
    lemma_decimal_digits(i);
    lemma_decimal_digits(j);
    assert(x[n as int] == '-');
    assert(x[m as int] == '-');
    if n < m {
        assert(x[n as int] == decimal(j)[n - kind.len()]);
    } else if m < n {
        assert(x[m as int] == decimal(i)[m - kind.len()]);
    }
    assert(decimal(i) =~= x.subrange(kind.len() as int, n as int));
    assert(decimal(j) =~= x.subrange(kind.len() as int, m as int));
    lemma_decimal_injective(i, j);
}

/// No two layers have the same id, whatever the content hash gives.
pub proof fn law_layer_ids_differ<H: Fn(&str) -> String>(
    hash: H,
    analysis: AnalysisView,
    layer_options: SemLayerGenerationOptions,
    options: OptionsView,
    i: int,
    j: int,
)
    requires
        0 <= i < j < layer_plan(hash, analysis, layer_options, options).layers.len(),
    ensures
        layer_plan(hash, analysis, layer_options, options).layers[i].id != layer_plan(
            hash,
            analysis,
            layer_options,
            options,
        ).layers[j].id,
{
    let plain = change_layers(hash, analysis.changes, layer_options);
    let a = stable_key(hash, "layer"@, seq![plain[i].title]);
    let b = stable_key(hash, "layer"@, seq![plain[j].title]);
    assert(plain[i].id == layer_id("sem-layer-"@, i as nat, a));
    assert(plain[j].id == layer_id("sem-layer-"@, j as nat, b));
    if plain[i].id == plain[j].id {
        lemma_layer_ids("sem-layer-"@, i as nat, a, j as nat, b);
    }
}

} // verus!
