//! What holds of every review plan with atoms.

use vstd::prelude::*;

use crate::atoms::{
    added_layers, atom_chunks, atom_groups, atom_layer, atom_layer_plan, atoms_left, assigned_ids,
    belongs, direct_ids, file_layer, filled_layers, goes_by_file, id_of, ids_where, is_manual,
    layers_left, layers_with_atoms, manual_ids, picked_atoms, placed_ids, remaining_keys,
    taken_ids,
};
use crate::collections::{lemma_listed, lemma_listed_exists, listed};
use crate::dependencies::{
    ids_of, law_dependencies_are_in_order, law_needed_layers_exist, needed_by,
};
use crate::groups::{
    groups_of, keys_present, lemma_chunked, lemma_chunks, lemma_grouped, lemma_spread_contains,
    lemma_spread_found,
};
use crate::hash::stable_key;
use crate::layers::{
    change_layers, law_layers_keep_to_the_options, layer_id, layer_plan, layer_size,
    lemma_layer_ids, linked, placed_changes,
};
use crate::seqs::{flattened, lemma_filter_contains};
use crate::text::joined;
use crate::types::{
    AnalysisView, AtomView, EmbeddedChangeView, LayerView, OptionsView, PlanView,
    SemLayerGenerationOptions,
};

verus! {

/// Whether a layer of a plan holds an atom.
pub open spec fn in_a_layer(layers: Seq<LayerView>, id: Seq<char>) -> bool {
    exists|j: int| 0 <= j < layers.len() && (#[trigger] layers[j]).atom_ids.contains(id)
}

/// The ids of the atoms that satisfy a condition.
pub proof fn lemma_ids_where(atoms: Seq<AtomView>, wanted: spec_fn(AtomView) -> bool, id: Seq<char>)
    ensures
        ids_where(atoms, wanted).finite(),
        ids_where(atoms, wanted).contains(id) <==> exists|k: int|
            0 <= k < atoms.len() && (#[trigger] atoms[k]).atom_id == id && wanted(atoms[k]),
{
    let kept = atoms.filter(wanted);
    let ids = kept.map_values(id_of());
    lemma_filter_contains(atoms, wanted);
    ids.lemma_cardinality_of_set();
    if ids.contains(id) {
        let m = choose|m: int| 0 <= m < ids.len() && ids[m] == id;
        assert(kept.contains(kept[m]));
        let k = choose|k: int| 0 <= k < atoms.len() && atoms[k] == kept[m];
        assert(atoms[k].atom_id == id);
    }
    if exists|k: int| 0 <= k < atoms.len() && (#[trigger] atoms[k]).atom_id == id && wanted(
        atoms[k],
    ) {
        let k = choose|k: int|
            0 <= k < atoms.len() && (#[trigger] atoms[k]).atom_id == id && wanted(atoms[k]);
        assert(atoms.contains(atoms[k]));
        assert(kept.contains(atoms[k]));
        let m = choose|m: int| 0 <= m < kept.len() && kept[m] == atoms[k];
        assert(ids[m] == id);
    }
}

/// The list of a finite set holds what the set holds.
pub proof fn lemma_listed_contains(texts: Set<Seq<char>>, text: Seq<char>)
    requires
        texts.finite(),
    ensures
        listed(texts).contains(text) <==> texts.contains(text),
{
    lemma_listed_exists(texts);
    assert(listed(texts).contains(text) <==> listed(texts).to_set().contains(text));
}

/// A layer takes finitely many atoms.
pub proof fn lemma_taken(
    layers: Seq<LayerView>,
    changes: Seq<EmbeddedChangeView>,
    atoms: Seq<AtomView>,
    j: int,
)
    ensures
        taken_ids(layers, changes, atoms, j).finite(),
{
    let assigned = assigned_ids(layers, changes, atoms);
    lemma_ids_where(atoms, belongs(layers[j], changes), Seq::empty());
    lemma_ids_where(atoms, goes_by_file(layers, assigned, Some(j)), Seq::empty());
    layers[j].atom_ids.lemma_cardinality_of_set();
}

/// Finitely many atoms are reported for manual review.
pub proof fn lemma_manual(
    layers: Seq<LayerView>,
    changes: Seq<EmbeddedChangeView>,
    atoms: Seq<AtomView>,
    options: SemLayerGenerationOptions,
)
    ensures
        manual_ids(layers, changes, atoms, options).finite(),
{
    lemma_ids_where(atoms, is_manual(), Seq::empty());
    picked_atoms(atoms, atoms_left(layers, changes, atoms, options)).map_values(
        id_of(),
    ).lemma_cardinality_of_set();
}

proof fn lemma_file_layer(layers: Seq<LayerView>, atom: AtomView)
    ensures
        file_layer(layers, atom) matches Some(j) ==> 0 <= j < layers.len(),
    decreases layers.len(),
{
    if layers.len() > 0 {
        lemma_file_layer(layers.drop_last(), atom);
    }
}

/// An atom that layers take is in one of them.
proof fn lemma_placed_is_in_a_layer(
    layers: Seq<LayerView>,
    changes: Seq<EmbeddedChangeView>,
    atoms: Seq<AtomView>,
    id: Seq<char>,
)
    requires
        placed_ids(layers, changes, atoms).contains(id),
    ensures
        in_a_layer(filled_layers(layers, changes, atoms), id),
{
    let assigned = assigned_ids(layers, changes, atoms);
    let filled = filled_layers(layers, changes, atoms);
    let j = if assigned.contains(id) {
        choose|j: int|
            0 <= j < layers.len() && direct_ids(#[trigger] layers[j], changes, atoms).contains(id)
    } else {
        lemma_ids_where(atoms, goes_by_file(layers, assigned, None), id);
        let k = choose|k: int|
            0 <= k < atoms.len() && (#[trigger] atoms[k]).atom_id == id && goes_by_file(
                layers,
                assigned,
                None,
            )(atoms[k]);
        lemma_file_layer(layers, atoms[k]);
        let j = file_layer(layers, atoms[k])->0;
        assert(goes_by_file(layers, assigned, Some(j))(atoms[k]));
        lemma_ids_where(atoms, goes_by_file(layers, assigned, Some(j)), id);
        j
    };
    lemma_taken(layers, changes, atoms, j);
    lemma_listed_contains(taken_ids(layers, changes, atoms, j), id);
    assert(filled[j].atom_ids.contains(id));
}

/// The ids in an added layer are those of the atoms of its chunk.
proof fn lemma_added_ids<H: Fn(&str) -> String>(
    hash: H,
    layers: Seq<LayerView>,
    changes: Seq<EmbeddedChangeView>,
    atoms: Seq<AtomView>,
    options: SemLayerGenerationOptions,
    i: int,
    id: Seq<char>,
)
    requires
        0 <= i < atom_chunks(layers, changes, atoms, options).len(),
    ensures
        added_layers(hash, layers, changes, atoms, options)[i].atom_ids.contains(id) <==> exists|
            m: int,
        |
            0 <= m < atom_chunks(layers, changes, atoms, options)[i].indices.len() && atoms[(
            #[trigger] atom_chunks(layers, changes, atoms, options)[i].indices[m]) as int].atom_id
                == id,
{
    let chunk = atom_chunks(layers, changes, atoms, options)[i];
    let ids = picked_atoms(atoms, chunk.indices).map_values(id_of());
    ids.lemma_cardinality_of_set();
    lemma_listed_contains(ids.to_set(), id);
    if ids.contains(id) {
        let m = choose|m: int| 0 <= m < ids.len() && ids[m] == id;
        assert(atoms[chunk.indices[m] as int].atom_id == id);
    }
    if exists|m: int|
        0 <= m < chunk.indices.len() && atoms[(#[trigger] chunk.indices[m]) as int].atom_id == id {
        let m = choose|m: int|
            0 <= m < chunk.indices.len() && atoms[(#[trigger] chunk.indices[m]) as int].atom_id
                == id;
        assert(ids[m] == id);
    }
}

/// Every atom is accounted for. One that the host leaves to manual review is
/// reported for it; every other one is in a layer or reported.
pub proof fn law_each_atom_is_accounted_for<H: Fn(&str) -> String>(
    hash: H,
    analysis: AnalysisView,
    atoms: Seq<AtomView>,
    layer_options: SemLayerGenerationOptions,
    options: OptionsView,
    k: int,
)
    requires
        0 <= k < atoms.len() <= usize::MAX,
    ensures
        ({
            let plan = atom_layer_plan(hash, analysis, atoms, layer_options, options);
            &&& atoms[k].manual_review ==> plan.manual_review_atom_ids.contains(atoms[k].atom_id)
            &&& in_a_layer(plan.layers, atoms[k].atom_id) || plan.manual_review_atom_ids.contains(
                atoms[k].atom_id,
            )
        }),
{
    let plan = atom_layer_plan(hash, analysis, atoms, layer_options, options);
    let layers = layer_plan(hash, analysis, layer_options, options).layers;
    let changes = analysis.changes;
    let id = atoms[k].atom_id;
    let filled = filled_layers(layers, changes, atoms);
    let added = added_layers(hash, layers, changes, atoms, layer_options);
    let manual = manual_ids(layers, changes, atoms, layer_options);
    lemma_manual(layers, changes, atoms, layer_options);
    lemma_listed_contains(manual, id);
    if atoms[k].manual_review {
        assert(is_manual()(atoms[k]));
        lemma_ids_where(atoms, is_manual(), id);
    } else if placed_ids(layers, changes, atoms).contains(id) {
        lemma_placed_is_in_a_layer(layers, changes, atoms, id);
        let j = choose|j: int| 0 <= j < filled.len() && (#[trigger] filled[j]).atom_ids.contains(id);
        assert(plan.layers[j].atom_ids.contains(id));
    } else {
        let keys = remaining_keys(atoms, placed_ids(layers, changes, atoms));
        let groups = atom_groups(layers, changes, atoms);
        let size = layer_size(layer_options);
        let room = layers_left(layers, layer_options);
        let chunks = atom_chunks(layers, changes, atoms, layer_options);
        let left = atoms_left(layers, changes, atoms, layer_options);
        let v = k as usize;
        lemma_grouped(keys, v);
        lemma_chunked(groups, size, room, v);
        if left.contains(v) {
            let m = choose|m: int| 0 <= m < left.len() && left[m] == v;
            let ids = picked_atoms(atoms, left).map_values(id_of());
            assert(ids[m] == id);
        } else {
            let i = lemma_spread_found(chunks, v);
            let m = choose|m: int| 0 <= m < chunks[i].indices.len() && chunks[i].indices[m] == v;
            assert(atoms[chunks[i].indices[m] as int].atom_id == id);
            lemma_added_ids(hash, layers, changes, atoms, layer_options, i, id);
            assert(added[i].atom_ids.contains(id));
            assert(plan.layers[filled.len() + i].atom_ids.contains(id));
        }
    }
}

/// A layer holds only atoms that were given and that the host does not leave to
/// manual review.
pub proof fn law_layers_hold_given_atoms<H: Fn(&str) -> String>(
    hash: H,
    analysis: AnalysisView,
    atoms: Seq<AtomView>,
    layer_options: SemLayerGenerationOptions,
    options: OptionsView,
    id: Seq<char>,
)
    requires
        atoms.len() <= usize::MAX,
        in_a_layer(atom_layer_plan(hash, analysis, atoms, layer_options, options).layers, id),
    ensures
        exists|k: int|
            0 <= k < atoms.len() && (#[trigger] atoms[k]).atom_id == id && !atoms[k].manual_review,
{
    let plan = atom_layer_plan(hash, analysis, atoms, layer_options, options);
    let layers = layer_plan(hash, analysis, layer_options, options).layers;
    let changes = analysis.changes;
    let filled = filled_layers(layers, changes, atoms);
    let added = added_layers(hash, layers, changes, atoms, layer_options);
    let j = choose|j: int| 0 <= j < plan.layers.len() && (#[trigger] plan.layers[j]).atom_ids.contains(
        id,
    );
    if j < filled.len() {
        assert(filled[j].atom_ids.contains(id));
        let assigned = assigned_ids(layers, changes, atoms);
        lemma_taken(layers, changes, atoms, j);
        lemma_listed_contains(taken_ids(layers, changes, atoms, j), id);
        lemma_ids_where(atoms, belongs(layers[j], changes), id);
        lemma_ids_where(atoms, goes_by_file(layers, assigned, Some(j)), id);
        assert(layers[j].atom_ids =~= Seq::empty());
    } else {
        let i = j - filled.len();
        let chunks = atom_chunks(layers, changes, atoms, layer_options);
        assert(added[i].atom_ids.contains(id));
        lemma_added_ids(hash, layers, changes, atoms, layer_options, i, id);
        let m = choose|m: int|
            0 <= m < chunks[i].indices.len() && atoms[(#[trigger] chunks[i].indices[m]) as int].atom_id
                == id;
        let v = chunks[i].indices[m];
        let keys = remaining_keys(atoms, placed_ids(layers, changes, atoms));
        lemma_spread_contains(chunks, i, m);
        lemma_chunked(
            groups_of(keys),
            layer_size(layer_options),
            layers_left(layers, layer_options),
            v,
        );
        lemma_grouped(keys, v);
        assert(atoms[v as int].atom_id == id && !atoms[v as int].manual_review);
    }
}

/// An atom that the host leaves to manual review is reported for it and is in
/// no layer, unless another atom has its id.
pub proof fn law_manual_atoms_are_in_no_layer<H: Fn(&str) -> String>(
    hash: H,
    analysis: AnalysisView,
    atoms: Seq<AtomView>,
    layer_options: SemLayerGenerationOptions,
    options: OptionsView,
    k: int,
)
    requires
        0 <= k < atoms.len() <= usize::MAX,
        forall|m: int|
            0 <= m < atoms.len() && (#[trigger] atoms[m]).atom_id == atoms[k].atom_id
                ==> atoms[m].manual_review,
    ensures
        atom_layer_plan(
            hash,
            analysis,
            atoms,
            layer_options,
            options,
        ).manual_review_atom_ids.contains(atoms[k].atom_id),
        !in_a_layer(
            atom_layer_plan(hash, analysis, atoms, layer_options, options).layers,
            atoms[k].atom_id,
        ),
{
    law_each_atom_is_accounted_for(hash, analysis, atoms, layer_options, options, k);
    if in_a_layer(
        atom_layer_plan(hash, analysis, atoms, layer_options, options).layers,
        atoms[k].atom_id,
    ) {
        law_layers_hold_given_atoms(
            hash,
            analysis,
            atoms,
            layer_options,
            options,
            atoms[k].atom_id,
        );
    }
}

/// Atoms change nothing about where changes are: what no layer holds, and what
/// the layers hold, is the same as without atoms.
pub proof fn law_atoms_leave_changes_in_place<H: Fn(&str) -> String>(
    hash: H,
    analysis: AnalysisView,
    atoms: Seq<AtomView>,
    layer_options: SemLayerGenerationOptions,
    options: OptionsView,
)
    ensures
        ({
            let with = atom_layer_plan(hash, analysis, atoms, layer_options, options);
            let without = layer_plan(hash, analysis, layer_options, options);
            &&& with.manual_review_change_indices == without.manual_review_change_indices
            &&& placed_changes(with.layers) == placed_changes(without.layers)
        }),
{
    let with = atom_layer_plan(hash, analysis, atoms, layer_options, options).layers;
    let without = layer_plan(hash, analysis, layer_options, options).layers;
    let f = |layer: LayerView| layer.change_indices;
    assert forall|j: int| 0 <= j < without.len() implies with.map_values(f)[j] == #[trigger] without.map_values(
        f,
    )[j] by {}
    lemma_flattened_empty_tail(with.map_values(f), without.map_values(f));
}

proof fn lemma_flattened_empty_tail(a: Seq<Seq<usize>>, b: Seq<Seq<usize>>)
    requires
        b.len() <= a.len(),
        forall|j: int| 0 <= j < b.len() ==> a[j] == #[trigger] b[j],
        forall|j: int| b.len() <= j < a.len() ==> (#[trigger] a[j]).len() == 0,
    ensures
        flattened(a) == flattened(b),
    decreases a.len(),
{
    if a.len() == b.len() {
        assert(a =~= b);
    } else {
        let front = a.drop_last();
        assert forall|j: int| 0 <= j < b.len() implies front[j] == #[trigger] b[j] by {
            assert(a[j] == b[j]);
        }
        lemma_flattened_empty_tail(front, b);
        assert(a[a.len() - 1].len() == 0);
        assert(flattened(a) =~= flattened(front));
    }
}

/// Atoms leave the layers of a plan as they were, but for the atoms in them and
/// the layers that they depend on; and of these none is lost. All else that the
/// plan says of changes is the same as without atoms.
pub proof fn law_atoms_leave_layers_as_they_were<H: Fn(&str) -> String>(
    hash: H,
    analysis: AnalysisView,
    atoms: Seq<AtomView>,
    layer_options: SemLayerGenerationOptions,
    options: OptionsView,
)
    ensures
        ({
            let with = atom_layer_plan(hash, analysis, atoms, layer_options, options);
            let without = layer_plan(hash, analysis, layer_options, options);
            &&& with.api_version == without.api_version
            &&& with.manual_review_change_indices == without.manual_review_change_indices
            &&& with.warnings == without.warnings
            &&& without.layers.len() <= with.layers.len()
            &&& forall|i: int|
                0 <= i < without.layers.len() ==> #[trigger] with.layers[i] == (LayerView {
                    atom_ids: with.layers[i].atom_ids,
                    depends_on_layer_ids: with.layers[i].depends_on_layer_ids,
                    ..without.layers[i]
                })
            &&& forall|i: int, id: Seq<char>|
                0 <= i < without.layers.len()
                    && #[trigger] without.layers[i].depends_on_layer_ids.contains(id)
                    ==> with.layers[i].depends_on_layer_ids.contains(id)
        }),
{
    let with = atom_layer_plan(hash, analysis, atoms, layer_options, options).layers;
    let without = layer_plan(hash, analysis, layer_options, options).layers;
    let held = layers_with_atoms(hash, without, analysis.changes, atoms, layer_options);
    assert forall|i: int, id: Seq<char>|
        0 <= i < without.len() && #[trigger] without[i].depends_on_layer_ids.contains(
            id,
        ) implies with[i].depends_on_layer_ids.contains(id) by {
        let before = without[i].depends_on_layer_ids;
        let needed = needed_by(held, atoms, held[i].id, held[i].atom_ids);
        law_needed_layers_exist(held, atoms, held[i].id, held[i].atom_ids);
        before.lemma_cardinality_of_set();
        assert(before.to_set().contains(id));
        lemma_listed_contains(before.to_set().union(needed), id);
    }
}

/// Without atoms a plan is the plain plan, but for its key.
pub proof fn law_no_atoms_change_nothing<H: Fn(&str) -> String>(
    hash: H,
    analysis: AnalysisView,
    layer_options: SemLayerGenerationOptions,
    options: OptionsView,
)
    ensures
        ({
            let with = atom_layer_plan(hash, analysis, Seq::empty(), layer_options, options);
            let without = layer_plan(hash, analysis, layer_options, options);
            &&& with.layers == without.layers
            &&& with.manual_review_atom_ids == Seq::<Seq<char>>::empty()
            &&& with == (PlanView { cache_key: with.cache_key, ..without })
        }),
{
    let atoms = Seq::<AtomView>::empty();
    let with = atom_layer_plan(hash, analysis, atoms, layer_options, options);
    let without = layer_plan(hash, analysis, layer_options, options);
    let layers = without.layers;
    let changes = analysis.changes;
    let plain = change_layers(hash, changes, layer_options);
    let held = layers_with_atoms(hash, layers, changes, atoms, layer_options);
    let none = Seq::<Seq<char>>::empty();
    let keys = remaining_keys(atoms, placed_ids(layers, changes, atoms));
    lemma_listed(none);
    assert(keys_present(keys) =~= none.to_set());
    assert(atom_groups(layers, changes, atoms) =~= Seq::empty());
    assert(held =~= filled_layers(layers, changes, atoms));
    assert forall|i: int| 0 <= i < layers.len() implies with.layers[i] == #[trigger] layers[i] by {
        let before = layers[i].depends_on_layer_ids;
        assert(plain[i].depends_on_layer_ids =~= none && plain[i].atom_ids =~= none);
        assert forall|id: Seq<char>| !taken_ids(layers, changes, atoms, i).contains(id) by {
            let assigned = assigned_ids(layers, changes, atoms);
            lemma_ids_where(atoms, belongs(layers[i], changes), id);
            lemma_ids_where(atoms, goes_by_file(layers, assigned, Some(i)), id);
        }
        assert(taken_ids(layers, changes, atoms, i) =~= none.to_set());
        assert(held[i].atom_ids =~= none);
        assert(needed_by(held, atoms, held[i].id, held[i].atom_ids) =~= Set::empty());
        assert(before.len() <= 1);
        lemma_listed(before);
        assert(before.to_set().union(Set::empty()) =~= before.to_set());
    }
    assert(with.layers =~= layers);
    let manual = manual_ids(layers, changes, atoms, layer_options);
    assert forall|id: Seq<char>| !manual.contains(id) by {
        lemma_ids_where(atoms, is_manual(), id);
    }
    assert(manual =~= none.to_set());
}

/// There are no more layers than asked for, each knows where it stands, and a
/// layer of atoms holds no more of them than asked for.
pub proof fn law_atom_layers_keep_to_the_options<H: Fn(&str) -> String>(
    hash: H,
    analysis: AnalysisView,
    atoms: Seq<AtomView>,
    layer_options: SemLayerGenerationOptions,
    options: OptionsView,
)
    ensures
        ({
            let layers = atom_layer_plan(hash, analysis, atoms, layer_options, options).layers;
            let first = layer_plan(hash, analysis, layer_options, options).layers.len();
            &&& layers.len() <= layer_options.max_layers
            &&& forall|i: int| 0 <= i < layers.len() ==> (#[trigger] layers[i]).index == i
            &&& forall|i: int|
                first <= i < layers.len() ==> (#[trigger] layers[i]).atom_ids.len() <= layer_size(
                    layer_options,
                )
        }),
{
    let layers = atom_layer_plan(hash, analysis, atoms, layer_options, options).layers;
    let before = layer_plan(hash, analysis, layer_options, options).layers;
    let changes = analysis.changes;
    let chunks = atom_chunks(before, changes, atoms, layer_options);
    law_layers_keep_to_the_options(hash, analysis, layer_options, options);
    lemma_chunks(
        atom_groups(before, changes, atoms),
        layer_size(layer_options),
        layers_left(before, layer_options),
    );
    assert forall|i: int| 0 <= i < layers.len() implies (#[trigger] layers[i]).index == i by {
        if i < before.len() {
            assert(layers[i].index == before[i].index);
        }
    }
    assert forall|i: int| before.len() <= i < layers.len() implies (
    #[trigger] layers[i]).atom_ids.len() <= layer_size(layer_options) by {
        let chunk = chunks[i - before.len()];
        let ids = picked_atoms(atoms, chunk.indices).map_values(id_of());
        ids.lemma_cardinality_of_set();
        lemma_listed_exists(ids.to_set());
        assert(layers[i].atom_ids == listed(ids.to_set()));
    }
}

/// No two layers have the same id, whatever the content hash gives.
pub proof fn law_atom_layer_ids_differ<H: Fn(&str) -> String>(
    hash: H,
    analysis: AnalysisView,
    atoms: Seq<AtomView>,
    layer_options: SemLayerGenerationOptions,
    options: OptionsView,
    i: int,
    j: int,
)
    requires
        0 <= i < j < atom_layer_plan(hash, analysis, atoms, layer_options, options).layers.len(),
    ensures
        atom_layer_plan(hash, analysis, atoms, layer_options, options).layers[i].id
            != atom_layer_plan(hash, analysis, atoms, layer_options, options).layers[j].id,
{
    let layers = atom_layer_plan(hash, analysis, atoms, layer_options, options).layers;
    let before = layer_plan(hash, analysis, layer_options, options).layers;
    let plain = change_layers(hash, analysis.changes, layer_options);
    let chunks = atom_chunks(before, analysis.changes, atoms, layer_options);
    let n = before.len();
    assert(n == plain.len());
    if layers[i].id == layers[j].id {
        if j < n {
            let a = stable_key(hash, "layer"@, seq![plain[i].title]);
            let b = stable_key(hash, "layer"@, seq![plain[j].title]);
            assert(layers[i].id == layer_id("sem-layer-"@, i as nat, a));
            assert(layers[j].id == layer_id("sem-layer-"@, j as nat, b));
            lemma_layer_ids("sem-layer-"@, i as nat, a, j as nat, b);
        } else {
            let y = atom_layer(hash, n + (j - n) as nat, chunks[j - n], atoms);
            let b = stable_key(hash, "atom-layer"@, seq![y.title, joined(y.atom_ids, "\n"@)]);
            assert(layers[j].id == layer_id("sem-atom-layer-"@, j as nat, b));
            if i < n {
                let a = stable_key(hash, "layer"@, seq![plain[i].title]);
                assert(layers[i].id == layer_id("sem-layer-"@, i as nat, a));
                reveal_strlit("sem-layer-");
                reveal_strlit("sem-atom-layer-");
                assert(layers[i].id[4] == 'l');
                assert(layers[j].id[4] == 'a');
            } else {
                let x = atom_layer(hash, n + (i - n) as nat, chunks[i - n], atoms);
                let a = stable_key(hash, "atom-layer"@, seq![x.title, joined(x.atom_ids, "\n"@)]);
                assert(layers[i].id == layer_id("sem-atom-layer-"@, i as nat, a));
                lemma_layer_ids("sem-atom-layer-"@, i as nat, a, j as nat, b);
            }
        }
    }
}

/// What a layer depends on are other layers of the plan.
pub proof fn law_dependencies_are_other_layers<H: Fn(&str) -> String>(
    hash: H,
    analysis: AnalysisView,
    atoms: Seq<AtomView>,
    layer_options: SemLayerGenerationOptions,
    options: OptionsView,
    i: int,
    id: Seq<char>,
)
    requires
        0 <= i < atom_layer_plan(hash, analysis, atoms, layer_options, options).layers.len(),
        atom_layer_plan(
            hash,
            analysis,
            atoms,
            layer_options,
            options,
        ).layers[i].depends_on_layer_ids.contains(id),
    ensures
        ({
            let layers = atom_layer_plan(hash, analysis, atoms, layer_options, options).layers;
            exists|j: int| 0 <= j < layers.len() && j != i && (#[trigger] layers[j]).id == id
        }),
{
    let layers = atom_layer_plan(hash, analysis, atoms, layer_options, options).layers;
    let before = layer_plan(hash, analysis, layer_options, options).layers;
    let plain = change_layers(hash, analysis.changes, layer_options);
    let held = layers_with_atoms(hash, before, analysis.changes, atoms, layer_options);
    law_dependencies_are_in_order(held, atoms, i);
    let needed = needed_by(held, atoms, held[i].id, held[i].atom_ids);
    assert(layers[i].depends_on_layer_ids.to_set().contains(id));
    if needed.contains(id) {
        law_needed_layers_exist(held, atoms, held[i].id, held[i].atom_ids);
        assert(ids_of(held).contains(id));
        let ids = held.map_values(|layer: LayerView| layer.id);
        let j = choose|j: int| 0 <= j < ids.len() && ids[j] == id;
        assert(layers[j].id == id);
    } else {
        let linked_layer = linked(plain)[i];
        assert(held[i].depends_on_layer_ids.contains(id));
        if i < before.len() {
            assert(held[i].depends_on_layer_ids == linked_layer.depends_on_layer_ids);
            assert(plain[i].depends_on_layer_ids =~= Seq::empty());
            assert(i > 0 && id == plain[i - 1].id);
            assert(layers[i - 1].id == id);
        } else {
            assert(held[i].depends_on_layer_ids =~= Seq::empty());
        }
    }
}

} // verus!
