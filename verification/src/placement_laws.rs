//! Where the atoms of every review plan are.

use vstd::prelude::*;

use crate::atoms::{
    added_layers, assigned_ids, atom_chunks, atom_groups, atom_hunks, atom_layer_plan,
    atoms_left, belongs, direct_ids, file_layer, filled_layers, goes_by_file, id_of, ids_where,
    is_manual, layers_left, layers_with_atoms, line_total, manual_ids, names_of, paths_of,
    picked_atoms, placed_ids, plan_with_atoms, remaining_keys, taken_ids,
};
use crate::atom_laws::{lemma_ids_where, lemma_listed_contains, lemma_manual, lemma_taken};
use crate::collections::{increasing, lemma_counted_exists, lemma_listed_exists};
use crate::dependency_laws::holds_atom;
use crate::groups::{
    groups_of, keys_present, lemma_chunk_pair, lemma_chunks, lemma_groups, lemma_keys_finite,
    lemma_rest_comes_last,
};
use crate::hash::stable_key;
use crate::keys::review_atom_layer_key;
use crate::layer_laws::ending;
use crate::layers::{layer_plan, layer_size};
use crate::matching::{
    atom_has_path, atom_in_files, atom_symbols, change_has_hunk, change_names, change_paths,
    change_takes, layer_change_takes, layer_has_hunk, layer_takes, lines_meet, names_symbol,
    range_path,
};
use crate::role_laws::{
    atom_plays, law_everything_plays_one_role, lemma_atom_word, lemma_role_words, lies_in,
    role_word, ReviewRole,
};
use crate::seqs::{flattened, lemma_flattened_contains, present};
use crate::text::{decimal, joined, text_before};
use crate::types::{
    AnalysisView, AtomView, EmbeddedChangeView, LayerView, OptionsView, PlanView, RangeView,
    SemLayerGenerationOptions, SemLineRange,
};

verus! {

// ---------------------------------------------------------------------------
// What layers want

/// Whether an atom is in a file, by its path now or before.
pub open spec fn is_in_file(atom: AtomView, path: Seq<char>) -> bool {
    atom.file_path == path || atom.old_file_path == Some(path)
}

/// Whether an atom speaks of a name: as its own, as one that it defines, or as
/// one that it refers to.
pub open spec fn speaks_of(atom: AtomView, name: Seq<char>) -> bool {
    ||| atom.symbol_name == Some(name)
    ||| exists|i: int|
        0 <= i < atom.defined_symbols.len() && #[trigger] atom.defined_symbols[i] == name
    ||| exists|i: int|
        0 <= i < atom.referenced_symbols.len() && #[trigger] atom.referenced_symbols[i] == name
}

/// Whether lines and a place have a line in common.
pub open spec fn shares_line(lines: Option<SemLineRange>, place: Option<RangeView>) -> bool {
    lines is Some && place is Some && lines->0.start_line <= place->0.end_line
        && place->0.start_line <= lines->0.end_line
}

/// Whether an atom has a hunk.
pub open spec fn has_hunk(atom: AtomView, hunk: usize) -> bool {
    exists|i: int| 0 <= i < atom.hunk_indices.len() && #[trigger] atom.hunk_indices[i] == hunk
}

/// Whether a change and an atom belong together: the atom is in a file of the
/// change, on either side, and they share a hunk, a line on the same side, or a
/// name, now or before; or the atom says nothing of where in the file it is.
pub open spec fn belong_together(change: EmbeddedChangeView, atom: AtomView) -> bool {
    &&& {
        ||| is_in_file(atom, change.change.file_path)
        ||| change.change.old_file_path matches Some(path) && is_in_file(atom, path)
        ||| change.before_range matches Some(place) && is_in_file(atom, place.file_path)
        ||| change.after_range matches Some(place) && is_in_file(atom, place.file_path)
    }
    &&& {
        ||| exists|o: int|
            0 <= o < change.hunk_overlaps.len() && has_hunk(
                atom,
                (#[trigger] change.hunk_overlaps[o]).hunk_index,
            )
        ||| shares_line(atom.old_range, change.before_range)
        ||| shares_line(atom.new_range, change.after_range)
        ||| speaks_of(atom, change.change.entity_name)
        ||| change.change.old_entity_name matches Some(name) && speaks_of(atom, name)
        ||| atom.hunk_indices.len() == 0 && atom.old_range is None && atom.new_range is None
    }
}

/// Whether an atom is in one of the files of a layer.
pub open spec fn is_in_files_of(layer: LayerView, atom: AtomView) -> bool {
    exists|p: int| 0 <= p < layer.file_paths.len() && is_in_file(atom, #[trigger] layer.file_paths[p])
}

/// Whether a layer wants an atom: for one of its changes, or because the atom is
/// in one of its files and has one of its hunks or speaks of one of its names.
pub open spec fn wants(
    layer: LayerView,
    changes: Seq<EmbeddedChangeView>,
    atom: AtomView,
) -> bool {
    ||| exists|k: int|
        0 <= k < layer.change_indices.len() && (#[trigger] layer.change_indices[k]) < changes.len()
            && belong_together(changes[layer.change_indices[k] as int], atom)
    ||| is_in_files_of(layer, atom) && exists|h: int|
        0 <= h < layer.hunk_indices.len() && has_hunk(atom, #[trigger] layer.hunk_indices[h])
    ||| is_in_files_of(layer, atom) && exists|n: int|
        0 <= n < layer.entity_names.len() && speaks_of(atom, #[trigger] layer.entity_names[n])
}

proof fn lemma_speaks_of(atom: AtomView, names: Seq<Seq<char>>)
    ensures
        names_symbol(atom, names) <==> exists|n: int|
            0 <= n < names.len() && speaks_of(atom, #[trigger] names[n]),
{
    let all = atom_symbols(atom);
    let own = present(atom.symbol_name);
    if names_symbol(atom, names) {
        let i = choose|i: int| 0 <= i < all.len() && names.contains(#[trigger] all[i]);
        let n = choose|n: int| 0 <= n < names.len() && names[n] == all[i];
        if i < own.len() {
            assert(all[i] == own[i]);
        } else if i < own.len() + atom.defined_symbols.len() {
            assert(all[i] == atom.defined_symbols[i - own.len()]);
        } else {
            assert(all[i] == atom.referenced_symbols[i - own.len() - atom.defined_symbols.len()]);
        }
        assert(speaks_of(atom, names[n]));
    }
    if exists|n: int| 0 <= n < names.len() && speaks_of(atom, #[trigger] names[n]) {
        let n = choose|n: int| 0 <= n < names.len() && speaks_of(atom, #[trigger] names[n]);
        let name = names[n];
        assert(names.contains(name));
        if atom.symbol_name == Some(name) {
            assert(all[0] == name);
        } else if exists|i: int|
            0 <= i < atom.defined_symbols.len() && #[trigger] atom.defined_symbols[i] == name {
            let i = choose|i: int|
                0 <= i < atom.defined_symbols.len() && #[trigger] atom.defined_symbols[i] == name;
            assert(all[own.len() + i] == name);
        } else {
            let i = choose|i: int|
                0 <= i < atom.referenced_symbols.len() && #[trigger] atom.referenced_symbols[i]
                    == name;
            assert(all[own.len() + atom.defined_symbols.len() + i] == name);
        }
    }
}

proof fn lemma_has_hunk(atom: AtomView, hunk: usize)
    ensures
        has_hunk(atom, hunk) == atom.hunk_indices.contains(hunk),
{
    if atom.hunk_indices.contains(hunk) {
        let i = choose|i: int| 0 <= i < atom.hunk_indices.len() && atom.hunk_indices[i] == hunk;
        assert(atom.hunk_indices[i] == hunk);
    }
}

proof fn lemma_belong_together(change: EmbeddedChangeView, atom: AtomView)
    ensures
        belong_together(change, atom) == change_takes(change, atom),
{
    let paths = change_paths(change);
    let old = present(change.change.old_file_path);
    let before = range_path(change.before_range);
    let after = range_path(change.after_range);
    assert forall|path: Seq<char>| is_in_file(atom, path) == #[trigger] atom_has_path(atom, path) by {}
    if is_in_file(atom, change.change.file_path) {
        assert(atom_has_path(atom, paths[0]));
    }
    if let Some(path) = change.change.old_file_path {
        if is_in_file(atom, path) {
            assert(paths[1] == path);
            assert(atom_has_path(atom, paths[1]));
        }
    }
    if let Some(place) = change.before_range {
        if is_in_file(atom, place.file_path) {
            let i = 1 + old.len() as int;
            assert(paths[i] == place.file_path);
            assert(atom_has_path(atom, paths[i]));
        }
    }
    if let Some(place) = change.after_range {
        if is_in_file(atom, place.file_path) {
            let i = 1 + old.len() + before.len() as int;
            assert(paths[i] == place.file_path);
            assert(atom_has_path(atom, paths[i]));
        }
    }
    if atom_in_files(atom, paths) {
        let i = choose|i: int| 0 <= i < paths.len() && atom_has_path(atom, #[trigger] paths[i]);
        assert(is_in_file(atom, paths[i]));
        if i == 0 {
            assert(paths[i] == change.change.file_path);
        } else if i < 1 + old.len() {
            assert(paths[i] == old[i - 1]);
        } else if i < 1 + old.len() + before.len() {
            assert(paths[i] == before[i - 1 - old.len()]);
        } else {
            assert(paths[i] == after[i - 1 - old.len() - before.len()]);
        }
    }
    if change_has_hunk(change, atom) {
        let o = choose|o: int|
            0 <= o < change.hunk_overlaps.len() && atom.hunk_indices.contains(
                (#[trigger] change.hunk_overlaps[o]).hunk_index,
            );
        lemma_has_hunk(atom, change.hunk_overlaps[o].hunk_index);
    }
    if exists|o: int|
        0 <= o < change.hunk_overlaps.len() && has_hunk(
            atom,
            (#[trigger] change.hunk_overlaps[o]).hunk_index,
        ) {
        let o = choose|o: int|
            0 <= o < change.hunk_overlaps.len() && has_hunk(
                atom,
                (#[trigger] change.hunk_overlaps[o]).hunk_index,
            );
        lemma_has_hunk(atom, change.hunk_overlaps[o].hunk_index);
        assert(change_has_hunk(change, atom));
    }
    assert(shares_line(atom.old_range, change.before_range) == lines_meet(
        atom.old_range,
        change.before_range,
    ));
    assert(shares_line(atom.new_range, change.after_range) == lines_meet(
        atom.new_range,
        change.after_range,
    ));
    let names = change_names(change);
    lemma_speaks_of(atom, names);
    assert(names[0] == change.change.entity_name);
    if change.change.old_entity_name is Some {
        assert(names[1] == change.change.old_entity_name->0);
    }
}

proof fn lemma_in_files_of(layer: LayerView, atom: AtomView)
    ensures
        is_in_files_of(layer, atom) == atom_in_files(atom, layer.file_paths),
{
    if is_in_files_of(layer, atom) {
        let p = choose|p: int|
            0 <= p < layer.file_paths.len() && is_in_file(atom, #[trigger] layer.file_paths[p]);
        assert(atom_has_path(atom, layer.file_paths[p]));
    }
    if atom_in_files(atom, layer.file_paths) {
        let p = choose|p: int|
            0 <= p < layer.file_paths.len() && atom_has_path(atom, #[trigger] layer.file_paths[p]);
        assert(is_in_file(atom, layer.file_paths[p]));
    }
}

proof fn lemma_wants(layer: LayerView, changes: Seq<EmbeddedChangeView>, atom: AtomView)
    ensures
        wants(layer, changes, atom) == layer_takes(layer, changes, atom),
{
    lemma_in_files_of(layer, atom);
    lemma_speaks_of(atom, layer.entity_names);
    if layer_change_takes(layer, changes, atom) {
        let k = choose|k: int|
            0 <= k < layer.change_indices.len() && (#[trigger] layer.change_indices[k])
                < changes.len() && change_takes(changes[layer.change_indices[k] as int], atom);
        lemma_belong_together(changes[layer.change_indices[k] as int], atom);
        assert(belong_together(changes[layer.change_indices[k] as int], atom));
    }
    if exists|k: int|
        0 <= k < layer.change_indices.len() && (#[trigger] layer.change_indices[k]) < changes.len()
            && belong_together(changes[layer.change_indices[k] as int], atom) {
        let k = choose|k: int|
            0 <= k < layer.change_indices.len() && (#[trigger] layer.change_indices[k])
                < changes.len() && belong_together(changes[layer.change_indices[k] as int], atom);
        lemma_belong_together(changes[layer.change_indices[k] as int], atom);
        assert(layer_change_takes(layer, changes, atom));
    }
    if layer_has_hunk(layer, atom) {
        let i = choose|i: int|
            0 <= i < atom.hunk_indices.len() && layer.hunk_indices.contains(
                #[trigger] atom.hunk_indices[i],
            );
        let h = choose|h: int|
            0 <= h < layer.hunk_indices.len() && layer.hunk_indices[h] == atom.hunk_indices[i];
        assert(has_hunk(atom, layer.hunk_indices[h]));
    }
    if is_in_files_of(layer, atom) && exists|h: int|
        0 <= h < layer.hunk_indices.len() && has_hunk(atom, #[trigger] layer.hunk_indices[h]) {
        let h = choose|h: int|
            0 <= h < layer.hunk_indices.len() && has_hunk(atom, #[trigger] layer.hunk_indices[h]);
        let i = choose|i: int|
            0 <= i < atom.hunk_indices.len() && #[trigger] atom.hunk_indices[i]
                == layer.hunk_indices[h];
        assert(layer.hunk_indices.contains(atom.hunk_indices[i]));
        assert(layer_has_hunk(layer, atom));
    }
}

// ---------------------------------------------------------------------------
// Atoms in the layers of changes

/// Whether some layer wants an atom with an id that is not left to manual
/// review.
pub open spec fn is_wanted(
    layers: Seq<LayerView>,
    changes: Seq<EmbeddedChangeView>,
    atoms: Seq<AtomView>,
    id: Seq<char>,
) -> bool {
    exists|j: int, k: int|
        {
            &&& 0 <= j < layers.len()
            &&& 0 <= k < atoms.len()
            &&& atoms[k].atom_id == id
            &&& !atoms[k].manual_review
            &&& wants(#[trigger] layers[j], changes, #[trigger] atoms[k])
        }
}

/// Whether a layer is the first with a file that an atom is in.
pub open spec fn is_first_by_file(layers: Seq<LayerView>, j: int, atom: AtomView) -> bool {
    &&& 0 <= j < layers.len()
    &&& is_in_files_of(layers[j], atom)
    &&& forall|i: int| 0 <= i < j ==> !is_in_files_of(#[trigger] layers[i], atom)
}

/// Whether an atom goes into a layer: the layer wants it or, where no layer wants
/// one with its id, the layer is the first with its file.
pub open spec fn goes_into(
    layers: Seq<LayerView>,
    changes: Seq<EmbeddedChangeView>,
    atoms: Seq<AtomView>,
    j: int,
    atom: AtomView,
) -> bool {
    &&& !atom.manual_review
    &&& {
        ||| wants(layers[j], changes, atom)
        ||| !is_wanted(layers, changes, atoms, atom.atom_id) && is_first_by_file(layers, j, atom)
    }
}

/// Whether an atom goes into no layer.
pub open spec fn goes_nowhere(
    layers: Seq<LayerView>,
    changes: Seq<EmbeddedChangeView>,
    atoms: Seq<AtomView>,
    atom: AtomView,
) -> bool {
    forall|j: int|
        0 <= j < layers.len() ==> !#[trigger] goes_into(layers, changes, atoms, j, atom)
}

proof fn lemma_file_layer_is_first(layers: Seq<LayerView>, atom: AtomView)
    ensures
        forall|j: int| #[trigger]
            is_first_by_file(layers, j, atom) <==> file_layer(layers, atom) == Some(j),
        file_layer(layers, atom) is None ==> forall|j: int|
            0 <= j < layers.len() ==> !is_in_files_of(#[trigger] layers[j], atom),
        file_layer(layers, atom) matches Some(j) ==> 0 <= j < layers.len(),
    decreases layers.len(),
{
    if layers.len() > 0 {
        let n = layers.len() - 1;
        let front = layers.drop_last();
        lemma_file_layer_is_first(front, atom);
        lemma_in_files_of(layers[n], atom);
        assert forall|j: int| #[trigger] is_first_by_file(layers, j, atom) <==> file_layer(
            layers,
            atom,
        ) == Some(j) by {
            if 0 <= j < n {
                assert(is_first_by_file(front, j, atom) <==> file_layer(front, atom) == Some(j));
                if is_first_by_file(front, j, atom) {
                    assert forall|i: int| 0 <= i < j implies !is_in_files_of(
                        #[trigger] layers[i],
                        atom,
                    ) by {
                        assert(!is_in_files_of(front[i], atom));
                    }
                    assert(is_in_files_of(front[j], atom));
                    assert(is_first_by_file(layers, j, atom));
                }
                if is_first_by_file(layers, j, atom) {
                    assert forall|i: int| 0 <= i < j implies !is_in_files_of(
                        #[trigger] front[i],
                        atom,
                    ) by {
                        assert(!is_in_files_of(layers[i], atom));
                    }
                    assert(is_first_by_file(front, j, atom));
                }
            } else if j == n {
                if let Some(m) = file_layer(front, atom) {
                    assert(is_first_by_file(front, m, atom));
                    assert(is_in_files_of(front[m], atom));
                    assert(is_in_files_of(layers[m], atom));
                } else {
                    assert forall|i: int| 0 <= i < n implies !is_in_files_of(
                        #[trigger] layers[i],
                        atom,
                    ) by {
                        assert(!is_in_files_of(front[i], atom));
                    }
                }
            }
        }
        if file_layer(layers, atom) is None {
            assert forall|j: int| 0 <= j < layers.len() implies !is_in_files_of(
                #[trigger] layers[j],
                atom,
            ) by {
                if j < n {
                    assert(!is_in_files_of(front[j], atom));
                }
            }
        }
    }
}

/// Whether some layer holds an id.
pub open spec fn is_held(layers: Seq<LayerView>, id: Seq<char>) -> bool {
    exists|j: int| 0 <= j < layers.len() && holds_atom(#[trigger] layers[j], id)
}

proof fn lemma_holds_atom(layer: LayerView, id: Seq<char>)
    ensures
        holds_atom(layer, id) == layer.atom_ids.contains(id),
        layer.atom_ids.to_set().contains(id) == layer.atom_ids.contains(id),
{
    if layer.atom_ids.contains(id) {
        let i = choose|i: int| 0 <= i < layer.atom_ids.len() && layer.atom_ids[i] == id;
        assert(layer.atom_ids[i] == id);
    }
}

proof fn lemma_assigned(
    layers: Seq<LayerView>,
    changes: Seq<EmbeddedChangeView>,
    atoms: Seq<AtomView>,
    id: Seq<char>,
)
    ensures
        assigned_ids(layers, changes, atoms).contains(id) == (is_wanted(layers, changes, atoms, id)
            || is_held(layers, id)),
{
    if assigned_ids(layers, changes, atoms).contains(id) {
        let j = choose|j: int|
            0 <= j < layers.len() && direct_ids(#[trigger] layers[j], changes, atoms).contains(id);
        lemma_holds_atom(layers[j], id);
        lemma_ids_where(atoms, belongs(layers[j], changes), id);
        if !holds_atom(layers[j], id) {
            let k = choose|k: int|
                0 <= k < atoms.len() && (#[trigger] atoms[k]).atom_id == id && belongs(
                    layers[j],
                    changes,
                )(atoms[k]);
            lemma_wants(layers[j], changes, atoms[k]);
            assert(wants(layers[j], changes, atoms[k]));
        }
    }
    if is_wanted(layers, changes, atoms, id) {
        let (j, k) = choose|j: int, k: int|
            {
                &&& 0 <= j < layers.len()
                &&& 0 <= k < atoms.len()
                &&& atoms[k].atom_id == id
                &&& !atoms[k].manual_review
                &&& wants(#[trigger] layers[j], changes, #[trigger] atoms[k])
            };
        lemma_wants(layers[j], changes, atoms[k]);
        assert(belongs(layers[j], changes)(atoms[k]));
        lemma_ids_where(atoms, belongs(layers[j], changes), id);
        assert(direct_ids(layers[j], changes, atoms).contains(id));
    }
    if is_held(layers, id) {
        let j = choose|j: int| 0 <= j < layers.len() && holds_atom(#[trigger] layers[j], id);
        lemma_holds_atom(layers[j], id);
        assert(direct_ids(layers[j], changes, atoms).contains(id));
    }
}

/// Atoms are added to those that a layer holds already. One is added just if the
/// layer wants it or, where no layer wants one with its id or holds it already,
/// the layer is the first with its file.
pub proof fn law_atoms_are_added_to_those_a_layer_holds<H: Fn(&str) -> String>(
    hash: H,
    plan: PlanView,
    changes: Seq<EmbeddedChangeView>,
    atoms: Seq<AtomView>,
    options: SemLayerGenerationOptions,
    j: int,
    id: Seq<char>,
)
    requires
        0 <= j < plan.layers.len(),
    ensures
        ({
            let layers = plan.layers;
            let with = plan_with_atoms(hash, plan, changes, atoms, options).layers;
            holds_atom(with[j], id) <==> holds_atom(layers[j], id) || exists|k: int|
                {
                    &&& 0 <= k < atoms.len()
                    &&& (#[trigger] atoms[k]).atom_id == id
                    &&& !atoms[k].manual_review
                    &&& wants(layers[j], changes, atoms[k]) || !is_wanted(
                        layers,
                        changes,
                        atoms,
                        id,
                    ) && !is_held(layers, id) && is_first_by_file(layers, j, atoms[k])
                }
        }),
{
    let layers = plan.layers;
    let with = plan_with_atoms(hash, plan, changes, atoms, options).layers;
    let filled = filled_layers(layers, changes, atoms);
    let taken = taken_ids(layers, changes, atoms, j);
    let assigned = assigned_ids(layers, changes, atoms);
    assert(with[j].atom_ids == filled[j].atom_ids);
    lemma_taken(layers, changes, atoms, j);
    lemma_listed_contains(taken, id);
    lemma_holds_atom(with[j], id);
    lemma_holds_atom(layers[j], id);
    assert(holds_atom(with[j], id) <==> taken.contains(id));
    lemma_ids_where(atoms, belongs(layers[j], changes), id);
    lemma_ids_where(atoms, goes_by_file(layers, assigned, Some(j)), id);
    lemma_assigned(layers, changes, atoms, id);
    if ids_where(atoms, belongs(layers[j], changes)).contains(id) {
        let k = choose|k: int|
            0 <= k < atoms.len() && (#[trigger] atoms[k]).atom_id == id && belongs(
                layers[j],
                changes,
            )(atoms[k]);
        lemma_wants(layers[j], changes, atoms[k]);
        assert(wants(layers[j], changes, atoms[k]));
    }
    if ids_where(atoms, goes_by_file(layers, assigned, Some(j))).contains(id) {
        let k = choose|k: int|
            0 <= k < atoms.len() && (#[trigger] atoms[k]).atom_id == id && goes_by_file(
                layers,
                assigned,
                Some(j),
            )(atoms[k]);
        lemma_file_layer_is_first(layers, atoms[k]);
        assert(is_first_by_file(layers, j, atoms[k]));
    }
    assert forall|k: int|
        {
            &&& 0 <= k < atoms.len()
            &&& (#[trigger] atoms[k]).atom_id == id
            &&& !atoms[k].manual_review
            &&& wants(layers[j], changes, atoms[k]) || !is_wanted(layers, changes, atoms, id)
                && !is_held(layers, id) && is_first_by_file(layers, j, atoms[k])
        } implies taken.contains(id) by {
        lemma_wants(layers[j], changes, atoms[k]);
        lemma_file_layer_is_first(layers, atoms[k]);
        if wants(layers[j], changes, atoms[k]) {
            assert(belongs(layers[j], changes)(atoms[k]));
        } else {
            assert(is_first_by_file(layers, j, atoms[k]));
            assert(goes_by_file(layers, assigned, Some(j))(atoms[k]));
        }
    }
}

/// An atom is in a layer of changes just if it, or one with its id, goes into
/// it: the layer wants it or, where no layer wants one with its id, the layer is
/// the first with its file.
pub proof fn law_atoms_go_where_they_are_wanted<H: Fn(&str) -> String>(
    hash: H,
    analysis: AnalysisView,
    atoms: Seq<AtomView>,
    layer_options: SemLayerGenerationOptions,
    options: OptionsView,
    j: int,
    id: Seq<char>,
)
    requires
        0 <= j < layer_plan(hash, analysis, layer_options, options).layers.len(),
    ensures
        ({
            let layers = layer_plan(hash, analysis, layer_options, options).layers;
            let with = atom_layer_plan(hash, analysis, atoms, layer_options, options).layers;
            holds_atom(with[j], id) <==> exists|k: int|
                0 <= k < atoms.len() && (#[trigger] atoms[k]).atom_id == id && goes_into(
                    layers,
                    analysis.changes,
                    atoms,
                    j,
                    atoms[k],
                )
        }),
{
    let plan = layer_plan(hash, analysis, layer_options, options);
    let layers = plan.layers;
    let changes = analysis.changes;
    law_atoms_are_added_to_those_a_layer_holds(
        hash,
        plan,
        changes,
        atoms,
        layer_options,
        j,
        id,
    );
    lemma_none_is_held(layers, id);
    lemma_holds_atom(layers[j], id);
    assert(layers[j].atom_ids.len() == 0);
    if exists|k: int|
        {
            &&& 0 <= k < atoms.len()
            &&& (#[trigger] atoms[k]).atom_id == id
            &&& !atoms[k].manual_review
            &&& wants(layers[j], changes, atoms[k]) || !is_wanted(layers, changes, atoms, id)
                && !is_held(layers, id) && is_first_by_file(layers, j, atoms[k])
        } {
        let k = choose|k: int|
            {
                &&& 0 <= k < atoms.len()
                &&& (#[trigger] atoms[k]).atom_id == id
                &&& !atoms[k].manual_review
                &&& wants(layers[j], changes, atoms[k]) || !is_wanted(layers, changes, atoms, id)
                    && !is_held(layers, id) && is_first_by_file(layers, j, atoms[k])
            };
        assert(goes_into(layers, changes, atoms, j, atoms[k]));
    }
}

proof fn lemma_none_is_held(layers: Seq<LayerView>, id: Seq<char>)
    requires
        forall|j: int| 0 <= j < layers.len() ==> (#[trigger] layers[j]).atom_ids.len() == 0,
    ensures
        !is_held(layers, id),
{
    if is_held(layers, id) {
        let j = choose|j: int| 0 <= j < layers.len() && holds_atom(#[trigger] layers[j], id);
        lemma_holds_atom(layers[j], id);
    }
}

// ---------------------------------------------------------------------------
// Atoms in layers of their own

/// How many lines the atoms at some indices change.
pub open spec fn lines_changed(atoms: Seq<AtomView>, indices: Seq<usize>) -> nat
    decreases indices.len(),
{
    if indices.len() == 0 {
        0
    } else {
        lines_changed(atoms, indices.drop_last()) + atoms[indices.last() as int].changed_lines as nat
    }
}

/// Whether a layer holds the atoms at some indices, all of one role and, for
/// code, of one directory, and lists what they hold.
pub open spec fn is_layer_of_atoms(
    layer: LayerView,
    atoms: Seq<AtomView>,
    indices: Seq<usize>,
    role: ReviewRole,
    dir: Seq<char>,
) -> bool {
    &&& indices.len() > 0
    &&& forall|a: int, b: int|
        0 <= a < b < indices.len() ==> #[trigger] indices[a] < #[trigger] indices[b]
    &&& forall|k: int|
        0 <= k < indices.len() ==> {
            let atom = atoms[(#[trigger] indices[k]) as int];
            &&& indices[k] < atoms.len()
            &&& !atom.manual_review
            &&& atom_plays(atom, role)
            &&& role is Code ==> lies_in(atom.file_path, dir)
        }
    &&& forall|id: Seq<char>| #[trigger]
        layer.atom_ids.contains(id) <==> exists|k: int|
            0 <= k < indices.len() && atoms[(#[trigger] indices[k]) as int].atom_id == id
    &&& forall|path: Seq<char>| #[trigger]
        layer.file_paths.contains(path) <==> exists|k: int|
            0 <= k < indices.len() && is_in_file(atoms[(#[trigger] indices[k]) as int], path)
    &&& forall|name: Seq<char>| #[trigger]
        layer.entity_names.contains(name) <==> exists|k: int|
            0 <= k < indices.len() && (atoms[(#[trigger] indices[k]) as int].symbol_name == Some(
                name,
            ) || atoms[indices[k] as int].defined_symbols.contains(name))
    &&& forall|hunk: usize| #[trigger]
        layer.hunk_indices.contains(hunk) <==> exists|k: int|
            0 <= k < indices.len() && has_hunk(atoms[(#[trigger] indices[k]) as int], hunk)
    &&& layer.change_indices.len() == 0
    &&& layer.title == match role {
        ReviewRole::Configuration => "Update configuration"@,
        ReviewRole::Foundation => "Update foundation types"@,
        ReviewRole::Tests => "Update tests"@,
        ReviewRole::Code => if layer.entity_names.len() == 1 {
            "Update "@ + layer.entity_names[0]
        } else if layer.file_paths.len() == 1 {
            "Update "@ + layer.file_paths[0]
        } else {
            "Update related code"@
        },
    }
    &&& layer.summary == decimal(indices.len()) + " review atom"@ + ending(indices.len())
        + " across "@ + decimal(layer.file_paths.len()) + " file"@ + ending(layer.file_paths.len())
        + "."@
    &&& layer.rationale == "Grouped by host-provided review atom role `"@ + role_word(role, dir)
        + "` with "@ + decimal(lines_changed(atoms, indices)) + " changed line"@ + ending(
        lines_changed(atoms, indices),
    ) + "."@
}

/// Whether every list of a layer is in order and without repeats.
pub open spec fn lists_are_in_order(layer: LayerView) -> bool {
    &&& forall|a: int, b: int|
        0 <= a < b < layer.atom_ids.len() ==> text_before(
            #[trigger] layer.atom_ids[a],
            #[trigger] layer.atom_ids[b],
        )
    &&& forall|a: int, b: int|
        0 <= a < b < layer.file_paths.len() ==> text_before(
            #[trigger] layer.file_paths[a],
            #[trigger] layer.file_paths[b],
        )
    &&& forall|a: int, b: int|
        0 <= a < b < layer.entity_names.len() ==> text_before(
            #[trigger] layer.entity_names[a],
            #[trigger] layer.entity_names[b],
        )
    &&& forall|a: int, b: int|
        0 <= a < b < layer.hunk_indices.len() ==> #[trigger] layer.hunk_indices[a]
            < #[trigger] layer.hunk_indices[b]
}

proof fn lemma_lines_changed(atoms: Seq<AtomView>, indices: Seq<usize>)
    ensures
        lines_changed(atoms, indices) == line_total(picked_atoms(atoms, indices)),
    decreases indices.len(),
{
    if indices.len() > 0 {
        lemma_lines_changed(atoms, indices.drop_last());
        assert(picked_atoms(atoms, indices).drop_last() =~= picked_atoms(
            atoms,
            indices.drop_last(),
        ));
    }
}

proof fn lemma_role_of_atom(atom: AtomView) -> (found: (ReviewRole, Seq<char>))
    ensures
        atom_plays(atom, found.0),
        lies_in(atom.file_path, found.1),
{
    law_everything_plays_one_role(
        arbitrary(),
        atom,
        atom.file_path,
        ReviewRole::Code,
        ReviewRole::Code,
        Seq::empty(),
        Seq::empty(),
    );
    (
        choose|role: ReviewRole| #[trigger] atom_plays(atom, role),
        choose|dir: Seq<char>| #[trigger] lies_in(atom.file_path, dir),
    )
}

proof fn lemma_atom_chunk_key(
    layers: Seq<LayerView>,
    changes: Seq<EmbeddedChangeView>,
    atoms: Seq<AtomView>,
    layer_options: SemLayerGenerationOptions,
    i: int,
    a: int,
    b: int,
)
    requires
        atoms.len() <= usize::MAX,
        0 <= i < atom_chunks(layers, changes, atoms, layer_options).len(),
        0 <= a < atom_chunks(layers, changes, atoms, layer_options)[i].indices.len(),
        0 <= b < atom_chunks(layers, changes, atoms, layer_options)[i].indices.len(),
    ensures
        ({
            let chunk = atom_chunks(layers, changes, atoms, layer_options)[i];
            &&& chunk.indices[a] < atoms.len()
            &&& remaining_keys(atoms, placed_ids(layers, changes, atoms))[chunk.indices[a] as int]
                == Some(chunk.key)
            &&& a < b ==> chunk.indices[a] < chunk.indices[b]
        }),
{
    let keys = remaining_keys(atoms, placed_ids(layers, changes, atoms));
    let groups = atom_groups(layers, changes, atoms);
    assert forall|g: int| 0 <= g < groups.len() implies increasing(
        (#[trigger] groups[g]).indices,
    ) by {
        lemma_groups(keys, groups, g, g);
    }
    let from = lemma_chunk_pair(
        groups,
        layer_size(layer_options),
        layers_left(layers, layer_options),
        i,
        i,
        a,
        b,
    );
    lemma_groups(keys, groups, from.0, from.0);
    let chunk = atom_chunks(layers, changes, atoms, layer_options)[i];
    assert(groups[from.0].indices.contains(chunk.indices[a]));
}

/// A layer behind those of the changes is that of a chunk of atoms.
#[verifier::rlimit(40)]
proof fn lemma_layer_of_chunk<H: Fn(&str) -> String>(
    hash: H,
    analysis: AnalysisView,
    atoms: Seq<AtomView>,
    layer_options: SemLayerGenerationOptions,
    options: OptionsView,
    i: int,
) -> (found: (Seq<usize>, ReviewRole, Seq<char>))
    requires
        atoms.len() <= usize::MAX,
        layer_plan(hash, analysis, layer_options, options).layers.len() <= i < atom_layer_plan(
            hash,
            analysis,
            atoms,
            layer_options,
            options,
        ).layers.len(),
    ensures
        ({
            let layers = layer_plan(hash, analysis, layer_options, options).layers;
            let layer = atom_layer_plan(hash, analysis, atoms, layer_options, options).layers[i];
            let chunk = atom_chunks(layers, analysis.changes, atoms, layer_options)[i
                - layers.len()];
            &&& found.0 == chunk.indices
            &&& chunk.key == role_word(found.1, found.2)
            &&& is_layer_of_atoms(layer, atoms, found.0, found.1, found.2)
            &&& lists_are_in_order(layer)
            &&& found.0.len() <= if layer_options.max_changes_per_layer > 1 {
                layer_options.max_changes_per_layer as int
            } else {
                1
            }
            &&& forall|k: int|
                0 <= k < found.0.len() ==> goes_nowhere(
                    layers,
                    analysis.changes,
                    atoms,
                    atoms[(#[trigger] found.0[k]) as int],
                )
            &&& layer.index == i
            &&& layer.id == "sem-atom-layer-"@ + decimal(i as nat) + "-"@ + stable_key(
                hash,
                "atom-layer"@,
                seq![
                    layer.title,
                    joined(found.0.map_values(|v: usize| atoms[v as int].atom_id), "\n"@),
                ],
            )
        }),
{
    let layers = layer_plan(hash, analysis, layer_options, options).layers;
    let changes = analysis.changes;
    let n = layers.len();
    let m = i - n;
    let chunks = atom_chunks(layers, changes, atoms, layer_options);
    let chunk = chunks[m];
    let indices = chunk.indices;
    let layer = atom_layer_plan(hash, analysis, atoms, layer_options, options).layers[i];
    let held = layers_with_atoms(hash, layers, changes, atoms, layer_options);
    let placed = placed_ids(layers, changes, atoms);
    let keys = remaining_keys(atoms, placed);
    assert(held[i] == added_layers(hash, layers, changes, atoms, layer_options)[m]);
    lemma_chunks(
        atom_groups(layers, changes, atoms),
        layer_size(layer_options),
        layers_left(layers, layer_options),
    );
    assert(indices.len() > 0);
    assert(i < layer_options.max_layers);
    lemma_atom_chunk_key(layers, changes, atoms, layer_options, m, 0, 0);
    let first = atoms[indices[0] as int];
    let (role, dir) = lemma_role_of_atom(first);
    lemma_atom_word(first, role, dir);
    assert(chunk.key == role_word(role, dir));
    assert forall|a: int, b: int| 0 <= a < b < indices.len() implies #[trigger] indices[a]
        < #[trigger] indices[b] by {
        lemma_atom_chunk_key(layers, changes, atoms, layer_options, m, a, b);
    }
    assert forall|k: int| 0 <= k < indices.len() implies {
        let atom = atoms[(#[trigger] indices[k]) as int];
        &&& indices[k] < atoms.len()
        &&& !atom.manual_review
        &&& !placed.contains(atom.atom_id)
        &&& atom_plays(atom, role)
        &&& role is Code ==> lies_in(atom.file_path, dir)
    } by {
        let atom = atoms[indices[k] as int];
        lemma_atom_chunk_key(layers, changes, atoms, layer_options, m, k, k);
        let (own, own_dir) = lemma_role_of_atom(atom);
        lemma_atom_word(atom, own, own_dir);
        lemma_role_words(role, dir, own, own_dir);
    }
    let inside = picked_atoms(atoms, indices);
    let ids = inside.map_values(id_of());
    let paths = inside.map_values(paths_of());
    let names = inside.map_values(names_of());
    let hunks = inside.map_values(atom_hunks());
    ids.lemma_cardinality_of_set();
    flattened(paths).lemma_cardinality_of_set();
    flattened(names).lemma_cardinality_of_set();
    lemma_listed_exists(ids.to_set());
    lemma_listed_exists(flattened(paths).to_set());
    lemma_listed_exists(flattened(names).to_set());
    lemma_counted_exists(flattened(hunks).to_set());
    assert forall|id: Seq<char>| #[trigger] layer.atom_ids.contains(id) <==> exists|k: int|
        0 <= k < indices.len() && atoms[(#[trigger] indices[k]) as int].atom_id == id by {
        lemma_listed_contains(ids.to_set(), id);
        if ids.contains(id) {
            let k = choose|k: int| 0 <= k < ids.len() && ids[k] == id;
            assert(atoms[indices[k] as int].atom_id == id);
        }
        if exists|k: int|
            0 <= k < indices.len() && atoms[(#[trigger] indices[k]) as int].atom_id == id {
            let k = choose|k: int|
                0 <= k < indices.len() && atoms[(#[trigger] indices[k]) as int].atom_id == id;
            assert(ids[k] == id);
        }
    }
    assert forall|path: Seq<char>| #[trigger] layer.file_paths.contains(path) <==> exists|k: int|
        0 <= k < indices.len() && is_in_file(atoms[(#[trigger] indices[k]) as int], path) by {
        lemma_listed_contains(flattened(paths).to_set(), path);
        lemma_flattened_contains(paths, path);
        if flattened(paths).contains(path) {
            let k = choose|k: int| 0 <= k < paths.len() && (#[trigger] paths[k]).contains(path);
            let p = choose|p: int| 0 <= p < paths[k].len() && paths[k][p] == path;
            assert(is_in_file(atoms[indices[k] as int], path));
        }
        if exists|k: int|
            0 <= k < indices.len() && is_in_file(atoms[(#[trigger] indices[k]) as int], path) {
            let k = choose|k: int|
                0 <= k < indices.len() && is_in_file(atoms[(#[trigger] indices[k]) as int], path);
            let atom = atoms[indices[k] as int];
            if atom.file_path == path {
                assert(paths[k][0] == path);
            } else {
                assert(paths[k][1] == path);
            }
            assert(paths[k].contains(path));
        }
    }
    assert forall|name: Seq<char>| #[trigger] layer.entity_names.contains(name) <==> exists|k: int|
        0 <= k < indices.len() && (atoms[(#[trigger] indices[k]) as int].symbol_name == Some(name)
            || atoms[indices[k] as int].defined_symbols.contains(name)) by {
        lemma_listed_contains(flattened(names).to_set(), name);
        lemma_flattened_contains(names, name);
        if flattened(names).contains(name) {
            let k = choose|k: int| 0 <= k < names.len() && (#[trigger] names[k]).contains(name);
            let p = choose|p: int| 0 <= p < names[k].len() && names[k][p] == name;
            let atom = atoms[indices[k] as int];
            let own = present(atom.symbol_name);
            if p < own.len() {
                assert(own[p] == name);
            } else {
                assert(atom.defined_symbols[p - own.len()] == name);
            }
            assert(atoms[indices[k] as int].symbol_name == Some(name)
                || atoms[indices[k] as int].defined_symbols.contains(name));
        }
        if exists|k: int|
            0 <= k < indices.len() && (atoms[(#[trigger] indices[k]) as int].symbol_name == Some(
                name,
            ) || atoms[indices[k] as int].defined_symbols.contains(name)) {
            let k = choose|k: int|
                0 <= k < indices.len() && (atoms[(#[trigger] indices[k]) as int].symbol_name
                    == Some(name) || atoms[indices[k] as int].defined_symbols.contains(name));
            let atom = atoms[indices[k] as int];
            let own = present(atom.symbol_name);
            if atom.symbol_name == Some(name) {
                assert(names[k][0] == name);
            } else {
                let p = choose|p: int|
                    0 <= p < atom.defined_symbols.len() && atom.defined_symbols[p] == name;
                assert(names[k][own.len() + p] == name);
            }
            assert(names[k].contains(name));
        }
    }
    assert forall|hunk: usize| #[trigger] layer.hunk_indices.contains(hunk) <==> exists|k: int|
        0 <= k < indices.len() && has_hunk(atoms[(#[trigger] indices[k]) as int], hunk) by {
        assert(layer.hunk_indices.contains(hunk) <==> layer.hunk_indices.to_set().contains(hunk));
        lemma_flattened_contains(hunks, hunk);
        if flattened(hunks).contains(hunk) {
            let k = choose|k: int| 0 <= k < hunks.len() && (#[trigger] hunks[k]).contains(hunk);
            lemma_has_hunk(atoms[indices[k] as int], hunk);
            assert(has_hunk(atoms[indices[k] as int], hunk));
        }
        if exists|k: int|
            0 <= k < indices.len() && has_hunk(atoms[(#[trigger] indices[k]) as int], hunk) {
            let k = choose|k: int|
                0 <= k < indices.len() && has_hunk(atoms[(#[trigger] indices[k]) as int], hunk);
            lemma_has_hunk(atoms[indices[k] as int], hunk);
            assert(hunks[k].contains(hunk));
        }
    }
    lemma_role_words(role, dir, ReviewRole::Configuration, dir);
    lemma_role_words(role, dir, ReviewRole::Foundation, dir);
    lemma_role_words(role, dir, ReviewRole::Tests, dir);
    lemma_lines_changed(atoms, indices);
    assert(ids =~= indices.map_values(|v: usize| atoms[v as int].atom_id));
    assert(is_layer_of_atoms(layer, atoms, indices, role, dir));
    assert forall|k: int| 0 <= k < indices.len() implies goes_nowhere(
        layers,
        changes,
        atoms,
        atoms[(#[trigger] indices[k]) as int],
    ) by {
        lemma_not_placed(layers, changes, atoms, indices[k] as int);
    }
    (indices, role, dir)
}

/// The layers behind those of the changes hold atoms that go into none of these:
/// atoms of one role each and, for code, of one directory. Such a layer lists
/// what its atoms hold, and says how many there are and how many lines they
/// change.
pub proof fn law_other_atoms_are_layered_by_role<H: Fn(&str) -> String>(
    hash: H,
    analysis: AnalysisView,
    atoms: Seq<AtomView>,
    layer_options: SemLayerGenerationOptions,
    options: OptionsView,
    i: int,
) -> (found: (Seq<usize>, ReviewRole, Seq<char>))
    requires
        atoms.len() <= usize::MAX,
        layer_plan(hash, analysis, layer_options, options).layers.len() <= i < atom_layer_plan(
            hash,
            analysis,
            atoms,
            layer_options,
            options,
        ).layers.len(),
    ensures
        ({
            let layers = layer_plan(hash, analysis, layer_options, options).layers;
            let layer = atom_layer_plan(hash, analysis, atoms, layer_options, options).layers[i];
            &&& is_layer_of_atoms(layer, atoms, found.0, found.1, found.2)
            &&& lists_are_in_order(layer)
            &&& found.0.len() <= if layer_options.max_changes_per_layer > 1 {
                layer_options.max_changes_per_layer as int
            } else {
                1
            }
            &&& forall|k: int|
                0 <= k < found.0.len() ==> goes_nowhere(
                    layers,
                    analysis.changes,
                    atoms,
                    atoms[(#[trigger] found.0[k]) as int],
                )
            &&& layer.index == i
            &&& layer.id == "sem-atom-layer-"@ + decimal(i as nat) + "-"@ + stable_key(
                hash,
                "atom-layer"@,
                seq![
                    layer.title,
                    joined(found.0.map_values(|v: usize| atoms[v as int].atom_id), "\n"@),
                ],
            )
        }),
{
    lemma_layer_of_chunk(hash, analysis, atoms, layer_options, options, i)
}

proof fn lemma_not_placed(
    layers: Seq<LayerView>,
    changes: Seq<EmbeddedChangeView>,
    atoms: Seq<AtomView>,
    k: int,
)
    requires
        forall|j: int| 0 <= j < layers.len() ==> (#[trigger] layers[j]).atom_ids.len() == 0,
        0 <= k < atoms.len(),
        !placed_ids(layers, changes, atoms).contains(atoms[k].atom_id),
    ensures
        goes_nowhere(layers, changes, atoms, atoms[k]),
{
    let id = atoms[k].atom_id;
    let assigned = assigned_ids(layers, changes, atoms);
    lemma_assigned(layers, changes, atoms, id);
    lemma_none_is_held(layers, id);
    lemma_ids_where(atoms, goes_by_file(layers, assigned, None), id);
    lemma_file_layer_is_first(layers, atoms[k]);
    assert forall|j: int| 0 <= j < layers.len() implies !#[trigger] goes_into(
        layers,
        changes,
        atoms,
        j,
        atoms[k],
    ) by {
        if goes_into(layers, changes, atoms, j, atoms[k]) {
            if wants(layers[j], changes, atoms[k]) {
                assert(is_wanted(layers, changes, atoms, id));
            } else {
                assert(is_first_by_file(layers, j, atoms[k]));
                assert(goes_by_file(layers, assigned, None)(atoms[k]));
            }
        }
    }
}

// ---------------------------------------------------------------------------
// Atoms for manual review

/// What is reported for manual review are the atoms that the host left to it,
/// and atoms that go into no layer of changes and that there was no room for:
/// there are then as many layers as asked for. They are listed in order, each
/// once.
pub proof fn law_atoms_are_left_only_for_want_of_room<H: Fn(&str) -> String>(
    hash: H,
    analysis: AnalysisView,
    atoms: Seq<AtomView>,
    layer_options: SemLayerGenerationOptions,
    options: OptionsView,
    id: Seq<char>,
)
    requires
        atoms.len() <= usize::MAX,
    ensures
        ({
            let layers = layer_plan(hash, analysis, layer_options, options).layers;
            let plan = atom_layer_plan(hash, analysis, atoms, layer_options, options);
            let manual = plan.manual_review_atom_ids;
            &&& (exists|k: int|
                0 <= k < atoms.len() && (#[trigger] atoms[k]).atom_id == id
                    && atoms[k].manual_review) ==> manual.contains(id)
            &&& manual.contains(id) ==> {
                ||| exists|k: int|
                    0 <= k < atoms.len() && (#[trigger] atoms[k]).atom_id == id
                        && atoms[k].manual_review
                ||| plan.layers.len() >= layer_options.max_layers && exists|k: int|
                    0 <= k < atoms.len() && (#[trigger] atoms[k]).atom_id == id
                        && !atoms[k].manual_review && forall|j: int|
                        0 <= j < layers.len() ==> !holds_atom(#[trigger] plan.layers[j], id)
            }
            &&& forall|a: int, b: int|
                0 <= a < b < manual.len() ==> text_before(
                    #[trigger] manual[a],
                    #[trigger] manual[b],
                )
        }),
{
    let layers = layer_plan(hash, analysis, layer_options, options).layers;
    let changes = analysis.changes;
    let plan = atom_layer_plan(hash, analysis, atoms, layer_options, options);
    let manual = manual_ids(layers, changes, atoms, layer_options);
    let keys = remaining_keys(atoms, placed_ids(layers, changes, atoms));
    let groups = atom_groups(layers, changes, atoms);
    let size = layer_size(layer_options);
    let room = layers_left(layers, layer_options);
    let left = atoms_left(layers, changes, atoms, layer_options);
    lemma_manual(layers, changes, atoms, layer_options);
    lemma_listed_exists(manual);
    lemma_listed_contains(manual, id);
    lemma_ids_where(atoms, is_manual(), id);
    if exists|k: int|
        0 <= k < atoms.len() && (#[trigger] atoms[k]).atom_id == id && atoms[k].manual_review {
        let k = choose|k: int|
            0 <= k < atoms.len() && (#[trigger] atoms[k]).atom_id == id && atoms[k].manual_review;
        assert(is_manual()(atoms[k]));
    }
    if manual.contains(id) {
        if ids_where(atoms, is_manual()).contains(id) {
            let k = choose|k: int|
                0 <= k < atoms.len() && (#[trigger] atoms[k]).atom_id == id && is_manual()(
                    atoms[k],
                );
            assert(atoms[k].atom_id == id && atoms[k].manual_review);
        } else {
            let ids = picked_atoms(atoms, left).map_values(id_of());
            assert(ids.contains(id));
            let p = choose|p: int| 0 <= p < ids.len() && ids[p] == id;
            lemma_chunks(groups, size, room);
            let g = lemma_rest_comes_last(groups, size, room, p);
            lemma_groups(keys, groups, g, g);
            assert(groups[g].indices.contains(left[p]));
            let k = left[p] as int;
            assert(keys[k] is Some);
            assert(atoms[k].atom_id == id && !atoms[k].manual_review);
            assert(!placed_ids(layers, changes, atoms).contains(id));
            assert forall|j: int| 0 <= j < layers.len() implies !holds_atom(
                #[trigger] plan.layers[j],
                id,
            ) by {
                law_atoms_go_where_they_are_wanted(
                    hash,
                    analysis,
                    atoms,
                    layer_options,
                    options,
                    j,
                    id,
                );
                if holds_atom(plan.layers[j], id) {
                    let x = choose|x: int|
                        0 <= x < atoms.len() && (#[trigger] atoms[x]).atom_id == id && goes_into(
                            layers,
                            changes,
                            atoms,
                            j,
                            atoms[x],
                        );
                    lemma_not_placed(layers, changes, atoms, x);
                }
            }
        }
    }
}

/// Layers of atoms stand in the order of the words they are grouped by, and of
/// two with the same word the first is full and its atoms come first.
pub proof fn law_layers_of_atoms_are_packed_in_order<H: Fn(&str) -> String>(
    hash: H,
    analysis: AnalysisView,
    atoms: Seq<AtomView>,
    layer_options: SemLayerGenerationOptions,
    options: OptionsView,
    i: int,
    j: int,
) -> (found: (Seq<usize>, ReviewRole, Seq<char>, Seq<usize>, ReviewRole, Seq<char>))
    requires
        atoms.len() <= usize::MAX,
        layer_plan(hash, analysis, layer_options, options).layers.len() <= i < j < atom_layer_plan(
            hash,
            analysis,
            atoms,
            layer_options,
            options,
        ).layers.len(),
    ensures
        ({
            let layers = atom_layer_plan(hash, analysis, atoms, layer_options, options).layers;
            let word = role_word(found.1, found.2);
            let later = role_word(found.4, found.5);
            &&& is_layer_of_atoms(layers[i], atoms, found.0, found.1, found.2)
            &&& is_layer_of_atoms(layers[j], atoms, found.3, found.4, found.5)
            &&& word == later || text_before(word, later)
            &&& word == later ==> {
                &&& found.0.len() == if layer_options.max_changes_per_layer > 1 {
                    layer_options.max_changes_per_layer as int
                } else {
                    1
                }
                &&& forall|a: int, b: int|
                    0 <= a < found.0.len() && 0 <= b < found.3.len() ==> #[trigger] found.0[a]
                        < #[trigger] found.3[b]
            }
        }),
{
    let layers = layer_plan(hash, analysis, layer_options, options).layers;
    let changes = analysis.changes;
    let n = layers.len();
    let chunks = atom_chunks(layers, changes, atoms, layer_options);
    let keys = remaining_keys(atoms, placed_ids(layers, changes, atoms));
    let groups = atom_groups(layers, changes, atoms);
    let x = lemma_layer_of_chunk(hash, analysis, atoms, layer_options, options, i);
    let y = lemma_layer_of_chunk(hash, analysis, atoms, layer_options, options, j);
    let first = chunks[i - n].indices;
    let second = chunks[j - n].indices;
    assert forall|g: int| 0 <= g < groups.len() implies increasing(
        (#[trigger] groups[g]).indices,
    ) by {
        lemma_groups(keys, groups, g, g);
    }
    let from = lemma_chunk_pair(
        groups,
        layer_size(layer_options),
        layers_left(layers, layer_options),
        i - n,
        j - n,
        0,
        0,
    );
    lemma_groups(keys, groups, from.0, from.1);
    lemma_group_words(keys, from.0, from.1);
    assert forall|a: int, b: int|
        0 <= a < first.len() && 0 <= b < second.len() && chunks[i - n].key == chunks[j
            - n].key implies #[trigger] first[a] < #[trigger] second[b] by {
        let pair = lemma_chunk_pair(
            groups,
            layer_size(layer_options),
            layers_left(layers, layer_options),
            i - n,
            j - n,
            a,
            b,
        );
        lemma_groups(keys, groups, pair.0, pair.1);
    }
    (first, x.1, x.2, second, y.1, y.2)
}

/// Groups stand in the order of their words.
proof fn lemma_group_words(keys: Seq<Option<Seq<char>>>, g: int, h: int)
    requires
        0 <= g <= h < groups_of(keys).len(),
    ensures
        g == h || text_before(groups_of(keys)[g].key, groups_of(keys)[h].key),
{
    lemma_keys_finite(keys);
    lemma_listed_exists(keys_present(keys));
}

/// A plan with atoms says of the whole what it is made from.
pub proof fn law_a_plan_with_atoms_has_its_own_key<H: Fn(&str) -> String>(
    hash: H,
    analysis: AnalysisView,
    atoms: Seq<AtomView>,
    layer_options: SemLayerGenerationOptions,
    options: OptionsView,
)
    ensures
        ({
            let plan = atom_layer_plan(hash, analysis, atoms, layer_options, options);
            &&& plan.api_version == "sem-embedded-v1"@
            &&& plan.cache_key == review_atom_layer_key(
                hash,
                analysis.cache_key,
                atoms,
                layer_options,
                options,
            )
            &&& plan.warnings.len() == 0
        }),
{
}

} // verus!
