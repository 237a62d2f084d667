//! Review layers that hold the atoms of a host's review.

use vstd::prelude::*;

use crate::analysis::{analysis_of, analyze_file_changes};
use crate::collections::{
    counted, lemma_concat_to_set, lemma_take_to_set, listed, ordered_texts, NumberSet,
    StringSet,
};
use crate::dependencies::{add_atom_layer_dependencies, with_dependencies};
use crate::groups::{
    chunks_of, group_indices, groups_of, lemma_chunked, lemma_grouped, lemma_spread_contains,
    rest_of, split_groups, spread, GroupView, LayerGroup,
};
use crate::hash::{is_content_hash, stable_cache_key, stable_key};
use crate::keys::{review_atom_layer_cache_key, review_atom_layer_key};
use crate::layers::{
    layer_id, layer_id_text, layer_plan, layer_size, layer_size_of, review_layers_from_analysis,
    summary_of_counts, summary_text,
};
use crate::matching::{
    atom_in_files, layer_file_paths_match_atom, layer_takes, review_layer_matches_atom,
};
use crate::model::DiffResult;
use crate::parses::ParserRegistry;
use crate::roles::{atom_key, atom_layer_key, atom_layer_title, title_of};
use crate::seqs::{
    flattened, lemma_filter_step, lemma_flattened_step, present, push_item, slice_of,
};
use crate::text::{decimal, decimal_text, join_texts, joined, plural, plural_text};
use crate::types::{
    AnalysisView, AtomView, EmbeddedChangeView, LayerView, OptionsView, PlanView, SemDiffAnalysis,
    SemEmbeddedChange, SemEmbeddedOptions, SemFileChange, SemLayerGenerationOptions,
    SemReviewAtom, SemReviewLayer, SemReviewLayerPlan,
};

verus! {

// ---------------------------------------------------------------------------
// One layer of atoms

/// The atoms at some indices.
pub open spec fn picked_atoms(atoms: Seq<AtomView>, indices: Seq<usize>) -> Seq<AtomView> {
    indices.map_values(|i: usize| atoms[i as int])
}

/// The id of an atom.
pub open spec fn id_of() -> spec_fn(AtomView) -> Seq<char> {
    |atom: AtomView| atom.atom_id
}

/// The paths of an atom, now and before.
pub open spec fn paths_of() -> spec_fn(AtomView) -> Seq<Seq<char>> {
    |atom: AtomView| seq![atom.file_path] + present(atom.old_file_path)
}

/// The symbols that an atom is named after or defines.
pub open spec fn names_of() -> spec_fn(AtomView) -> Seq<Seq<char>> {
    |atom: AtomView| present(atom.symbol_name) + atom.defined_symbols
}

/// The hunks of an atom.
pub open spec fn atom_hunks() -> spec_fn(AtomView) -> Seq<usize> {
    |atom: AtomView| atom.hunk_indices
}

/// How many lines some atoms change.
pub open spec fn line_total(atoms: Seq<AtomView>) -> nat
    decreases atoms.len(),
{
    if atoms.len() == 0 {
        0
    } else {
        line_total(atoms.drop_last()) + atoms.last().changed_lines as nat
    }
}

proof fn lemma_line_total(atoms: Seq<AtomView>, i: int)
    requires
        0 <= i < atoms.len(),
    ensures
        line_total(atoms.take(i + 1)) == line_total(atoms.take(i)) + atoms[i].changed_lines,
        line_total(atoms.take(i + 1)) <= line_total(atoms),
    decreases atoms.len() - i,
{
    assert(atoms.take(i + 1).drop_last() =~= atoms.take(i));
    if i + 1 < atoms.len() {
        lemma_line_total(atoms, i + 1);
    } else {
        assert(atoms.take(i + 1) =~= atoms);
    }
}

/// Why atoms are in one layer.
pub open spec fn atom_rationale(key: Seq<char>, lines: nat) -> Seq<char> {
    "Grouped by host-provided review atom role `"@ + key + "` with "@ + decimal(lines)
        + " changed line"@ + plural(lines) + "."@
}

/// The layer of a chunk of atoms.
pub open spec fn atom_layer<H: Fn(&str) -> String>(
    hash: H,
    index: nat,
    chunk: GroupView,
    atoms: Seq<AtomView>,
) -> LayerView {
    let inside = picked_atoms(atoms, chunk.indices);
    let ids = inside.map_values(id_of());
    let paths = flattened(inside.map_values(paths_of())).to_set();
    let names = flattened(inside.map_values(names_of())).to_set();
    let title = title_of(chunk.key, names, paths);
    LayerView {
        id: layer_id(
            "sem-atom-layer-"@,
            index,
            stable_key(hash, "atom-layer"@, seq![title, joined(ids, "\n"@)]),
        ),
        index: index as usize,
        title,
        summary: summary_text(ids.len(), " review atom"@, paths.len()),
        rationale: atom_rationale(chunk.key, line_total(inside)),
        depends_on_layer_ids: Seq::empty(),
        change_indices: Seq::empty(),
        atom_ids: ids,
        file_paths: listed(paths),
        hunk_indices: counted(flattened(inside.map_values(atom_hunks())).to_set()),
        entity_names: listed(names),
    }
}

fn insert_paths(paths: &mut StringSet, atom: &SemReviewAtom)
    requires
        old(paths).wf(),
    ensures
        final(paths).wf(),
        final(paths)@ == old(paths)@.union(paths_of()(atom.deep_view()).to_set()),
{
    let ghost start = paths@;
    paths.insert(atom.file_path.clone());
    if let Some(path) = &atom.old_file_path {
        paths.insert(path.clone());
    }
    proof {
        let first = seq![atom.file_path@];
        let second = present(atom.deep_view().old_file_path);
        lemma_concat_to_set(first, second);
        assert(first.take(0).to_set() =~= Set::empty());
        lemma_take_to_set(first, 0);
        assert(first.take(1) =~= first);
        if second.len() > 0 {
            assert(second.take(0).to_set() =~= Set::empty());
            lemma_take_to_set(second, 0);
            assert(second.take(1) =~= second);
        } else {
            assert(second.to_set() =~= Set::empty());
        }
        assert(paths@ =~= start.union(paths_of()(atom.deep_view()).to_set()));
    }
}

fn insert_names(names: &mut StringSet, atom: &SemReviewAtom)
    requires
        old(names).wf(),
    ensures
        final(names).wf(),
        final(names)@ == old(names)@.union(names_of()(atom.deep_view()).to_set()),
{
    let ghost start = names@;
    if let Some(symbol) = &atom.symbol_name {
        names.insert(symbol.clone());
    }
    names.insert_all(slice_of(&atom.defined_symbols));
    proof {
        let first = present(atom.deep_view().symbol_name);
        let second = atom.deep_view().defined_symbols;
        lemma_concat_to_set(first, second);
        if first.len() > 0 {
            assert(first.take(0).to_set() =~= Set::empty());
            lemma_take_to_set(first, 0);
            assert(first.take(1) =~= first);
        } else {
            assert(first.to_set() =~= Set::empty());
        }
        assert(names@ =~= start.union(names_of()(atom.deep_view()).to_set()));
    }
}

/// Makes the layer of a chunk of atoms.
pub fn layer_from_atom_indices<H: Fn(&str) -> String>(
    index: usize,
    key: &str,
    atom_indices: &[usize],
    atoms: &[SemReviewAtom],
    hash: &H,
) -> (layer: SemReviewLayer)
    requires
        is_content_hash(*hash),
        forall|i: int| 0 <= i < atom_indices@.len() ==> (#[trigger] atom_indices@[i]) < atoms@.len(),
        line_total(picked_atoms(atoms.deep_view(), atom_indices@)) <= usize::MAX,
    ensures
        layer.deep_view() == atom_layer(
            *hash,
            index as nat,
            GroupView { key: key@, indices: atom_indices@ },
            atoms.deep_view(),
        ),
{
    let ghost inside = picked_atoms(atoms.deep_view(), atom_indices@);
    let ghost ids = inside.map_values(id_of());
    let ghost paths = inside.map_values(paths_of());
    let ghost names = inside.map_values(names_of());
    let ghost hunks = inside.map_values(atom_hunks());
    let mut file_paths = StringSet::new();
    let mut hunk_indices = NumberSet::new();
    let mut entity_names = StringSet::new();
    let mut changed_lines: usize = 0;
    let mut atom_ids: Vec<String> = Vec::new();
    let mut i: usize = 0;
    proof {
        assert(atom_ids.deep_view() =~= ids.take(0));
        assert(file_paths@ =~= flattened(paths.take(0)).to_set());
        assert(entity_names@ =~= flattened(names.take(0)).to_set());
        assert(hunk_indices@ =~= flattened(hunks.take(0)).to_set());
    }
    while i < atom_indices.len()
        invariant
            i <= atom_indices@.len(),
            forall|j: int|
                0 <= j < atom_indices@.len() ==> (#[trigger] atom_indices@[j]) < atoms@.len(),
            inside == picked_atoms(atoms.deep_view(), atom_indices@),
            ids == inside.map_values(id_of()),
            paths == inside.map_values(paths_of()),
            names == inside.map_values(names_of()),
            hunks == inside.map_values(atom_hunks()),
            line_total(inside) <= usize::MAX,
            file_paths.wf(),
            entity_names.wf(),
            hunk_indices.wf(),
            atom_ids.deep_view() == ids.take(i as int),
            file_paths@ == flattened(paths.take(i as int)).to_set(),
            entity_names@ == flattened(names.take(i as int)).to_set(),
            hunk_indices@ == flattened(hunks.take(i as int)).to_set(),
            changed_lines == line_total(inside.take(i as int)),
        decreases atom_indices@.len() - i,
    {
        let atom = &atoms[atom_indices[i]];
        proof {
            assert(inside[i as int] == atom.deep_view());
            lemma_flattened_step(paths, i as int);
            lemma_flattened_step(names, i as int);
            lemma_flattened_step(hunks, i as int);
            lemma_concat_to_set(flattened(paths.take(i as int)), paths[i as int]);
            lemma_concat_to_set(flattened(names.take(i as int)), names[i as int]);
            lemma_concat_to_set(flattened(hunks.take(i as int)), hunks[i as int]);
            lemma_line_total(inside, i as int);
            assert(atom.deep_view().hunk_indices =~= atom.hunk_indices@);
        }
        push_item(&mut atom_ids, atom.atom_id.clone());
        assert(atom_ids.deep_view() =~= ids.take(i + 1));
        insert_paths(&mut file_paths, atom);
        hunk_indices.insert_all(atom.hunk_indices.as_slice());
        insert_names(&mut entity_names, atom);
        changed_lines = changed_lines + atom.changed_lines;
        i = i + 1;
    }
    proof {
        assert(ids.take(i as int) =~= ids);
        assert(paths.take(i as int) =~= paths);
        assert(names.take(i as int) =~= names);
        assert(hunks.take(i as int) =~= hunks);
        assert(inside.take(i as int) =~= inside);
    }
    let title = atom_layer_title(key, &entity_names, &file_paths);
    let mut parts: Vec<String> = Vec::new();
    push_item(&mut parts, title.clone());
    push_item(&mut parts, join_texts(slice_of(&atom_ids), "\n"));
    assert(parts.deep_view() =~= seq![title@, joined(ids, "\n"@)]);
    let id = layer_id_text(
        "sem-atom-layer-",
        index,
        stable_cache_key(hash, "atom-layer", slice_of(&parts)).as_str(),
    );
    let mut rationale = "Grouped by host-provided review atom role `".to_string();
    rationale.append(key);
    rationale.append("` with ");
    rationale.append(decimal_text(changed_lines as u64).as_str());
    rationale.append(" changed line");
    rationale.append(plural_text(changed_lines));
    rationale.append(".");
    let summary = summary_of_counts(atom_ids.len(), " review atom", file_paths.len());
    let layer = SemReviewLayer {
        id,
        index,
        title,
        summary,
        rationale,
        depends_on_layer_ids: Vec::new(),
        change_indices: Vec::new(),
        atom_ids,
        file_paths: file_paths.into_vec(),
        hunk_indices: hunk_indices.into_vec(),
        entity_names: entity_names.into_vec(),
    };
    proof {
        assert(layer.change_indices.deep_view() =~= Seq::empty());
        assert(layer.hunk_indices.deep_view() =~= layer.hunk_indices@);
        assert(layer.depends_on_layer_ids.deep_view() =~= Seq::empty());
    }
    layer
}

// ---------------------------------------------------------------------------
// Where atoms belong

/// The ids of the atoms that satisfy the condition.
pub open spec fn ids_where(atoms: Seq<AtomView>, wanted: spec_fn(AtomView) -> bool) -> Set<
    Seq<char>,
> {
    atoms.filter(wanted).map_values(id_of()).to_set()
}

proof fn lemma_ids_where_step(atoms: Seq<AtomView>, wanted: spec_fn(AtomView) -> bool, i: int)
    requires
        0 <= i < atoms.len(),
    ensures
        ids_where(atoms.take(i + 1), wanted) == if wanted(atoms[i]) {
            ids_where(atoms.take(i), wanted).insert(atoms[i].atom_id)
        } else {
            ids_where(atoms.take(i), wanted)
        },
{
    lemma_filter_step(atoms, wanted, i);
    if wanted(atoms[i]) {
        let shorter = atoms.take(i).filter(wanted).map_values(id_of());
        let longer = atoms.take(i + 1).filter(wanted).map_values(id_of());
        let n = shorter.len() as int;
        assert(longer =~= shorter.push(atoms[i].atom_id));
        lemma_take_to_set(longer, n);
        assert(longer.take(n) =~= shorter);
        assert(longer.take(n + 1) =~= longer);
    }
}

proof fn lemma_ids_where_none(atoms: Seq<AtomView>, wanted: spec_fn(AtomView) -> bool)
    ensures
        ids_where(atoms.take(0), wanted) == Set::<Seq<char>>::empty(),
{
    reveal(Seq::filter);
    assert(atoms.take(0).filter(wanted).map_values(id_of()) =~= Seq::empty());
    assert(ids_where(atoms.take(0), wanted) =~= Set::empty());
}

/// Whether an atom is left to manual review by the host.
pub open spec fn is_manual() -> spec_fn(AtomView) -> bool {
    |atom: AtomView| atom.manual_review
}

/// Whether an atom belongs to a layer.
pub open spec fn belongs(layer: LayerView, changes: Seq<EmbeddedChangeView>) -> spec_fn(
    AtomView,
) -> bool {
    |atom: AtomView| !atom.manual_review && layer_takes(layer, changes, atom)
}

/// The ids of the atoms that belong to a layer, and those it had before.
pub open spec fn direct_ids(
    layer: LayerView,
    changes: Seq<EmbeddedChangeView>,
    atoms: Seq<AtomView>,
) -> Set<Seq<char>> {
    ids_where(atoms, belongs(layer, changes)).union(layer.atom_ids.to_set())
}

/// The ids of the atoms that belong to any layer.
pub open spec fn assigned_ids(
    layers: Seq<LayerView>,
    changes: Seq<EmbeddedChangeView>,
    atoms: Seq<AtomView>,
) -> Set<Seq<char>> {
    Set::new(
        |id: Seq<char>|
            exists|j: int|
                0 <= j < layers.len() && direct_ids(#[trigger] layers[j], changes, atoms).contains(
                    id,
                ),
    )
}

/// The first layer with a file that an atom is in.
pub open spec fn file_layer(layers: Seq<LayerView>, atom: AtomView) -> Option<int>
    decreases layers.len(),
{
    if layers.len() == 0 {
        None
    } else {
        match file_layer(layers.drop_last(), atom) {
            Some(j) => Some(j),
            None => if atom_in_files(atom, layers.last().file_paths) {
                Some(layers.len() - 1)
            } else {
                None
            },
        }
    }
}

/// Whether an atom that belongs to no layer goes to a layer by its file alone.
pub open spec fn goes_by_file(
    layers: Seq<LayerView>,
    assigned: Set<Seq<char>>,
    layer: Option<int>,
) -> spec_fn(AtomView) -> bool {
    |atom: AtomView|
        {
            &&& !atom.manual_review
            &&& !assigned.contains(atom.atom_id)
            &&& file_layer(layers, atom) is Some
            &&& layer is Some ==> file_layer(layers, atom) == layer
        }
}

/// The ids of the atoms in a layer: of those that belong to it and of those
/// that go there by their file.
pub open spec fn taken_ids(
    layers: Seq<LayerView>,
    changes: Seq<EmbeddedChangeView>,
    atoms: Seq<AtomView>,
    j: int,
) -> Set<Seq<char>> {
    direct_ids(layers[j], changes, atoms).union(
        ids_where(atoms, goes_by_file(layers, assigned_ids(layers, changes, atoms), Some(j))),
    )
}

/// The ids of the atoms that a layer takes.
pub open spec fn placed_ids(
    layers: Seq<LayerView>,
    changes: Seq<EmbeddedChangeView>,
    atoms: Seq<AtomView>,
) -> Set<Seq<char>> {
    assigned_ids(layers, changes, atoms).union(
        ids_where(atoms, goes_by_file(layers, assigned_ids(layers, changes, atoms), None)),
    )
}

fn find_file_layer(layers: &[SemReviewLayer], atom: &SemReviewAtom) -> (found: Option<usize>)
    ensures
        match found {
            Some(j) => j < layers@.len() && file_layer(layers.deep_view(), atom.deep_view())
                == Some(j as int),
            None => file_layer(layers.deep_view(), atom.deep_view()) is None,
        },
{
    let ghost all = layers.deep_view();
    let ghost view = atom.deep_view();
    let mut j: usize = 0;
    while j < layers.len()
        invariant
            j <= layers@.len(),
            all == layers.deep_view(),
            view == atom.deep_view(),
            file_layer(all.take(j as int), view) is None,
        decreases layers@.len() - j,
    {
        proof {
            assert(all.take(j + 1).drop_last() =~= all.take(j as int));
            assert(all.take(j + 1).last() == layers@[j as int].deep_view());
        }
        if layer_file_paths_match_atom(&layers[j], atom) {
            proof {
                lemma_file_layer_prefix(all, view, j + 1);
            }
            return Some(j);
        }
        j = j + 1;
    }
    assert(all.take(j as int) =~= all);
    None
}

/// What is found in a prefix is what is found.
proof fn lemma_file_layer_prefix(layers: Seq<LayerView>, atom: AtomView, n: int)
    requires
        0 <= n <= layers.len(),
        file_layer(layers.take(n), atom) is Some,
    ensures
        file_layer(layers, atom) == file_layer(layers.take(n), atom),
    decreases layers.len() - n,
{
    if n < layers.len() {
        assert(layers.take(n + 1).drop_last() =~= layers.take(n));
        lemma_file_layer_prefix(layers, atom, n + 1);
    } else {
        assert(layers.take(n) =~= layers);
    }
}

fn direct_atoms(
    layer: &SemReviewLayer,
    changes: &[SemEmbeddedChange],
    atoms: &[SemReviewAtom],
) -> (ids: StringSet)
    ensures
        ids.wf(),
        ids@ == direct_ids(layer.deep_view(), changes.deep_view(), atoms.deep_view()),
{
    let ghost all = atoms.deep_view();
    let ghost wanted = belongs(layer.deep_view(), changes.deep_view());
    let mut ids = StringSet::new();
    let mut i: usize = 0;
    proof {
        lemma_ids_where_none(all, wanted);
    }
    while i < atoms.len()
        invariant
            i <= atoms@.len(),
            all == atoms.deep_view(),
            wanted == belongs(layer.deep_view(), changes.deep_view()),
            ids.wf(),
            ids@ == ids_where(all.take(i as int), wanted),
        decreases atoms@.len() - i,
    {
        let atom = &atoms[i];
        proof {
            lemma_ids_where_step(all, wanted, i as int);
            assert(all[i as int] == atom.deep_view());
        }
        if !atom.manual_review && review_layer_matches_atom(layer, changes, atom) {
            ids.insert(atom.atom_id.clone());
        }
        i = i + 1;
    }
    assert(all.take(i as int) =~= all);
    ids.insert_all(slice_of(&layer.atom_ids));
    ids
}

/// Puts atoms that belong to no layer into the first layer with their file, and
/// returns the ids of those that there was such a layer for.
pub fn assign_file_matched_atoms(
    layers: &[SemReviewLayer],
    atoms: &[SemReviewAtom],
    assigned: &StringSet,
    taken: &mut Vec<StringSet>,
) -> (filed: StringSet)
    requires
        assigned.wf(),
        old(taken)@.len() == layers@.len(),
        forall|j: int| 0 <= j < old(taken)@.len() ==> (#[trigger] old(taken)@[j]).wf(),
    ensures
        filed.wf(),
        filed@ == ids_where(
            atoms.deep_view(),
            goes_by_file(layers.deep_view(), assigned@, None),
        ),
        final(taken)@.len() == layers@.len(),
        forall|j: int| 0 <= j < final(taken)@.len() ==> (#[trigger] final(taken)@[j]).wf(),
        forall|j: int|
            0 <= j < final(taken)@.len() ==> (#[trigger] final(taken)@[j])@ == old(
                taken,
            )@[j]@.union(
                ids_where(
                    atoms.deep_view(),
                    goes_by_file(layers.deep_view(), assigned@, Some(j)),
                ),
            ),
{
    let ghost all = atoms.deep_view();
    let ghost places = layers.deep_view();
    let ghost start = taken@;
    let mut filed = StringSet::new();
    let mut i: usize = 0;
    proof {
        lemma_ids_where_none(all, goes_by_file(places, assigned@, None));
        assert forall|j: int| 0 <= j < taken@.len() implies (#[trigger] taken@[j])@
            == start[j]@.union(
            ids_where(all.take(0), goes_by_file(places, assigned@, Some(j))),
        ) by {
            lemma_ids_where_none(all, goes_by_file(places, assigned@, Some(j)));
            assert(start[j]@.union(Set::empty()) =~= start[j]@);
        }
    }
    while i < atoms.len()
        invariant
            i <= atoms@.len(),
            all == atoms.deep_view(),
            places == layers.deep_view(),
            assigned.wf(),
            filed.wf(),
            filed@ == ids_where(all.take(i as int), goes_by_file(places, assigned@, None)),
            start.len() == layers@.len(),
            taken@.len() == layers@.len(),
            forall|j: int| 0 <= j < taken@.len() ==> (#[trigger] taken@[j]).wf(),
            forall|j: int|
                0 <= j < taken@.len() ==> (#[trigger] taken@[j])@ == start[j]@.union(
                    ids_where(all.take(i as int), goes_by_file(places, assigned@, Some(j))),
                ),
        decreases atoms@.len() - i,
    {
        let atom = &atoms[i];
        let ghost view = all[i as int];
        let ghost before = taken@;
        proof {
            lemma_ids_where_step(all, goes_by_file(places, assigned@, None), i as int);
        }
        if !atom.manual_review && !assigned.contains(atom.atom_id.as_str()) {
            if let Some(at) = find_file_layer(layers, atom) {
                filed.insert(atom.atom_id.clone());
                taken[at].insert(atom.atom_id.clone());
                proof {
                    assert forall|j: int| 0 <= j < taken@.len() implies (#[trigger] taken@[j])@
                        == start[j]@.union(
                        ids_where(all.take(i + 1), goes_by_file(places, assigned@, Some(j))),
                    ) by {
                        lemma_ids_where_step(
                            all,
                            goes_by_file(places, assigned@, Some(j)),
                            i as int,
                        );
                        assert(before[j]@ == start[j]@.union(
                            ids_where(all.take(i as int), goes_by_file(places, assigned@, Some(j))),
                        ));
                        assert(taken@[j]@ =~= start[j]@.union(
                            ids_where(all.take(i + 1), goes_by_file(places, assigned@, Some(j))),
                        ));
                    }
                }
            }
        }
        proof {
            if !goes_by_file(places, assigned@, None)(view) {
                assert forall|j: int| 0 <= j < taken@.len() implies (#[trigger] taken@[j])@
                    == start[j]@.union(
                    ids_where(all.take(i + 1), goes_by_file(places, assigned@, Some(j))),
                ) by {
                    lemma_ids_where_step(all, goes_by_file(places, assigned@, Some(j)), i as int);
                    assert(taken@[j] == before[j]);
                }
            }
        }
        i = i + 1;
    }
    assert(all.take(i as int) =~= all);
    filed
}

// ---------------------------------------------------------------------------
// The plan

/// The key of the layers of each atom that no layer takes. One that a layer
/// takes, or that is left to manual review, has none.
pub open spec fn remaining_keys(atoms: Seq<AtomView>, placed: Set<Seq<char>>) -> Seq<
    Option<Seq<char>>,
> {
    atoms.map_values(
        |atom: AtomView|
            if atom.manual_review || placed.contains(atom.atom_id) {
                None
            } else {
                Some(atom_key(atom))
            },
    )
}

/// How many layers may be added.
pub open spec fn layers_left(layers: Seq<LayerView>, options: SemLayerGenerationOptions) -> nat {
    if layers.len() < options.max_layers {
        (options.max_layers - layers.len()) as nat
    } else {
        0
    }
}

/// The groups of the atoms that no layer takes.
pub open spec fn atom_groups(
    layers: Seq<LayerView>,
    changes: Seq<EmbeddedChangeView>,
    atoms: Seq<AtomView>,
) -> Seq<GroupView> {
    groups_of(remaining_keys(atoms, placed_ids(layers, changes, atoms)))
}

/// The chunks of atoms that become layers of their own.
pub open spec fn atom_chunks(
    layers: Seq<LayerView>,
    changes: Seq<EmbeddedChangeView>,
    atoms: Seq<AtomView>,
    options: SemLayerGenerationOptions,
) -> Seq<GroupView> {
    chunks_of(
        atom_groups(layers, changes, atoms),
        layer_size(options),
        layers_left(layers, options),
    )
}

/// The atoms that there was no room for.
pub open spec fn atoms_left(
    layers: Seq<LayerView>,
    changes: Seq<EmbeddedChangeView>,
    atoms: Seq<AtomView>,
    options: SemLayerGenerationOptions,
) -> Seq<usize> {
    rest_of(
        atom_groups(layers, changes, atoms),
        layer_size(options),
        layers_left(layers, options),
    )
}

/// A layer with the ids of its atoms in order, each once.
pub open spec fn with_ids(layer: LayerView, ids: Set<Seq<char>>) -> LayerView {
    LayerView { atom_ids: listed(ids), ..layer }
}

/// The layers with the atoms that they take.
pub open spec fn filled_layers(
    layers: Seq<LayerView>,
    changes: Seq<EmbeddedChangeView>,
    atoms: Seq<AtomView>,
) -> Seq<LayerView> {
    Seq::new(
        layers.len(),
        |j: int| with_ids(layers[j], taken_ids(layers, changes, atoms, j)),
    )
}

/// The layers of the atoms that no other layer takes.
pub open spec fn added_layers<H: Fn(&str) -> String>(
    hash: H,
    layers: Seq<LayerView>,
    changes: Seq<EmbeddedChangeView>,
    atoms: Seq<AtomView>,
    options: SemLayerGenerationOptions,
) -> Seq<LayerView> {
    let chunks = atom_chunks(layers, changes, atoms, options);
    Seq::new(
        chunks.len(),
        |i: int|
            {
                let layer = atom_layer(hash, layers.len() + i as nat, chunks[i], atoms);
                with_ids(layer, layer.atom_ids.to_set())
            },
    )
}

/// All layers with their atoms.
pub open spec fn layers_with_atoms<H: Fn(&str) -> String>(
    hash: H,
    layers: Seq<LayerView>,
    changes: Seq<EmbeddedChangeView>,
    atoms: Seq<AtomView>,
    options: SemLayerGenerationOptions,
) -> Seq<LayerView> {
    filled_layers(layers, changes, atoms) + added_layers(hash, layers, changes, atoms, options)
}

/// The ids of the atoms that no layer holds.
pub open spec fn manual_ids(
    layers: Seq<LayerView>,
    changes: Seq<EmbeddedChangeView>,
    atoms: Seq<AtomView>,
    options: SemLayerGenerationOptions,
) -> Set<Seq<char>> {
    ids_where(atoms, is_manual()).union(
        picked_atoms(atoms, atoms_left(layers, changes, atoms, options)).map_values(
            id_of(),
        ).to_set(),
    )
}

/// A plan with atoms: each in the layers that it belongs to or else in one with
/// its file or else in one of its own, while there may be more layers.
pub open spec fn plan_with_atoms<H: Fn(&str) -> String>(
    hash: H,
    plan: PlanView,
    changes: Seq<EmbeddedChangeView>,
    atoms: Seq<AtomView>,
    options: SemLayerGenerationOptions,
) -> PlanView {
    PlanView {
        layers: with_dependencies(
            layers_with_atoms(hash, plan.layers, changes, atoms, options),
            atoms,
        ),
        manual_review_atom_ids: listed(manual_ids(plan.layers, changes, atoms, options)),
        ..plan
    }
}

/// Whether the changed lines of each added layer can be counted.
pub open spec fn lines_can_be_counted(
    layers: Seq<LayerView>,
    changes: Seq<EmbeddedChangeView>,
    atoms: Seq<AtomView>,
    options: SemLayerGenerationOptions,
) -> bool {
    let chunks = atom_chunks(layers, changes, atoms, options);
    forall|i: int|
        0 <= i < chunks.len() ==> line_total(
            picked_atoms(atoms, (#[trigger] chunks[i]).indices),
        ) <= usize::MAX
}

fn manual_atoms(atoms: &[SemReviewAtom]) -> (ids: StringSet)
    ensures
        ids.wf(),
        ids@ == ids_where(atoms.deep_view(), is_manual()),
{
    let ghost all = atoms.deep_view();
    let mut ids = StringSet::new();
    let mut i: usize = 0;
    proof {
        lemma_ids_where_none(all, is_manual());
    }
    while i < atoms.len()
        invariant
            i <= atoms@.len(),
            all == atoms.deep_view(),
            ids.wf(),
            ids@ == ids_where(all.take(i as int), is_manual()),
        decreases atoms@.len() - i,
    {
        proof {
            lemma_ids_where_step(all, is_manual(), i as int);
        }
        if atoms[i].manual_review {
            ids.insert(atoms[i].atom_id.clone());
        }
        i = i + 1;
    }
    assert(all.take(i as int) =~= all);
    ids
}

fn keys_of_remaining(atoms: &[SemReviewAtom], placed: &StringSet) -> (keys: Vec<Option<String>>)
    requires
        placed.wf(),
    ensures
        keys.deep_view() == remaining_keys(atoms.deep_view(), placed@),
{
    let ghost all = remaining_keys(atoms.deep_view(), placed@);
    let mut keys: Vec<Option<String>> = Vec::new();
    let mut i: usize = 0;
    assert(keys.deep_view() =~= all.take(0));
    while i < atoms.len()
        invariant
            i <= atoms@.len(),
            placed.wf(),
            all == remaining_keys(atoms.deep_view(), placed@),
            keys.deep_view() == all.take(i as int),
        decreases atoms@.len() - i,
    {
        let atom = &atoms[i];
        let key: Option<String> = if atom.manual_review || placed.contains(atom.atom_id.as_str()) {
            None
        } else {
            Some(atom_layer_key(atom))
        };
        assert(atoms.deep_view()[i as int] == atom.deep_view());
        push_item(&mut keys, key);
        assert(keys.deep_view() =~= all.take(i + 1));
        i = i + 1;
    }
    assert(all.take(i as int) =~= all);
    keys
}

/// The ids that layers take directly, layer by layer and all together.
fn take_directly(
    layers: &[SemReviewLayer],
    changes: &[SemEmbeddedChange],
    atoms: &[SemReviewAtom],
) -> (result: (Vec<StringSet>, StringSet))
    ensures
        result.0@.len() == layers@.len(),
        forall|j: int|
            0 <= j < result.0@.len() ==> (#[trigger] result.0@[j]).wf() && result.0@[j]@
                == direct_ids(layers.deep_view()[j], changes.deep_view(), atoms.deep_view()),
        result.1.wf(),
        result.1@ == assigned_ids(layers.deep_view(), changes.deep_view(), atoms.deep_view()),
{
    let ghost places = layers.deep_view();
    let ghost views = changes.deep_view();
    let ghost all = atoms.deep_view();
    let mut taken: Vec<StringSet> = Vec::new();
    let mut assigned = StringSet::new();
    let mut j: usize = 0;
    while j < layers.len()
        invariant
            j <= layers@.len(),
            places == layers.deep_view(),
            views == changes.deep_view(),
            all == atoms.deep_view(),
            taken@.len() == j,
            forall|k: int|
                0 <= k < j ==> (#[trigger] taken@[k]).wf() && taken@[k]@ == direct_ids(
                    places[k],
                    views,
                    all,
                ),
            assigned.wf(),
            forall|id: Seq<char>| #[trigger]
                assigned@.contains(id) <==> exists|k: int|
                    0 <= k < j && direct_ids(#[trigger] places[k], views, all).contains(id),
        decreases layers@.len() - j,
    {
        let ghost before = assigned@;
        assert(places[j as int] == layers@[j as int].deep_view());
        let ids = direct_atoms(&layers[j], changes, atoms);
        assigned.insert_set(&ids);
        proof {
            assert forall|id: Seq<char>| #[trigger]
                assigned@.contains(id) <==> exists|k: int|
                    0 <= k < j + 1 && direct_ids(#[trigger] places[k], views, all).contains(id) by {
                assert(before.contains(id) <==> exists|k: int|
                    0 <= k < j && direct_ids(#[trigger] places[k], views, all).contains(id));
                if before.contains(id) {
                    let k = choose|k: int|
                        0 <= k < j && direct_ids(#[trigger] places[k], views, all).contains(id);
                    assert(direct_ids(places[k], views, all).contains(id));
                }
                if ids@.contains(id) {
                    assert(direct_ids(places[j as int], views, all).contains(id));
                }
            }
        }
        taken.push(ids);
        j = j + 1;
    }
    assert(assigned@ =~= assigned_ids(places, views, all));
    (taken, assigned)
}

fn fill_layers(layers: &mut Vec<SemReviewLayer>, taken: Vec<StringSet>)
    requires
        taken@.len() == old(layers)@.len(),
        forall|j: int| 0 <= j < taken@.len() ==> (#[trigger] taken@[j]).wf(),
    ensures
        final(layers)@.len() == old(layers)@.len(),
        forall|j: int|
            0 <= j < final(layers)@.len() ==> #[trigger] final(layers).deep_view()[j] == with_ids(
                old(layers).deep_view()[j],
                taken@[j]@,
            ),
{
    let ghost start = layers.deep_view();
    let n: usize = layers.len();
    let mut at: usize = 0;
    for ids in it: taken
        invariant
            it.seq() == taken@,
            at == it.index(),
            taken@.len() == n,
            layers@.len() == n,
            start.len() == n,
            forall|j: int| 0 <= j < taken@.len() ==> (#[trigger] taken@[j]).wf(),
            forall|j: int|
                0 <= j < n ==> #[trigger] layers.deep_view()[j] == (if j < at {
                    with_ids(start[j], taken@[j]@)
                } else {
                    start[j]
                }),
    {
        let ghost before = layers.deep_view();
        assert(ids == taken@[at as int]);
        assert(before[at as int] == start[at as int]);
        layers[at].atom_ids = ids.into_vec();
        proof {
            assert(layers@[at as int].deep_view() == with_ids(
                start[at as int],
                taken@[at as int]@,
            ));
            assert forall|j: int| 0 <= j < n implies #[trigger] layers.deep_view()[j] == (if j < at
                + 1 {
                with_ids(start[j], taken@[j]@)
            } else {
                start[j]
            }) by {
                if j != at {
                    assert(layers.deep_view()[j] == before[j]);
                }
            }
        }
        at = at + 1;
    }
}

/// Every index in the chunks of atoms, and every one left over, is that of an
/// atom.
proof fn lemma_atom_indices(
    keys: Seq<Option<Seq<char>>>,
    size: nat,
    room: nat,
    v: usize,
)
    requires
        keys.len() <= usize::MAX,
        size > 0,
        spread(chunks_of(groups_of(keys), size, room)).contains(v) || rest_of(
            groups_of(keys),
            size,
            room,
        ).contains(v),
    ensures
        v < keys.len(),
{
    lemma_chunked(groups_of(keys), size, room, v);
    lemma_grouped(keys, v);
}

/// Where atoms go: which ids each layer takes, the chunks of the other atoms that
/// become layers, and the atoms that there is no room for.
struct Arrangement {
    taken: Vec<StringSet>,
    chunks: Vec<LayerGroup>,
    rest: Vec<usize>,
}

fn arrange_atoms(
    layers: &[SemReviewLayer],
    changes: &[SemEmbeddedChange],
    atoms: &[SemReviewAtom],
    layer_options: &SemLayerGenerationOptions,
) -> (result: Arrangement)
    ensures
        result.taken@.len() == layers@.len(),
        forall|j: int|
            0 <= j < result.taken@.len() ==> (#[trigger] result.taken@[j]).wf()
                && result.taken@[j]@ == taken_ids(
                layers.deep_view(),
                changes.deep_view(),
                atoms.deep_view(),
                j,
            ),
        result.chunks.deep_view() == atom_chunks(
            layers.deep_view(),
            changes.deep_view(),
            atoms.deep_view(),
            *layer_options,
        ),
        result.rest@ == atoms_left(
            layers.deep_view(),
            changes.deep_view(),
            atoms.deep_view(),
            *layer_options,
        ),
        forall|i: int, k: int|
            0 <= i < result.chunks@.len() && 0 <= k < result.chunks@[i].indices@.len() ==> (
            #[trigger] result.chunks@[i].indices@[k]) < atoms@.len(),
        forall|k: int| 0 <= k < result.rest@.len() ==> (#[trigger] result.rest@[k]) < atoms@.len(),
{
    let ghost places = layers.deep_view();
    let ghost views = changes.deep_view();
    let ghost all = atoms.deep_view();
    let ghost options = *layer_options;
    let (mut taken, assigned) = take_directly(layers, changes, atoms);
    let ghost direct = taken@;
    let filed = assign_file_matched_atoms(layers, atoms, &assigned, &mut taken);
    let mut placed = assigned;
    placed.insert_set(&filed);
    assert(placed@ =~= placed_ids(places, views, all));
    let keys = keys_of_remaining(atoms, &placed);
    let (groups, _) = group_indices(slice_of(&keys));
    let count: usize = layers.len();
    let room: usize = if count < layer_options.max_layers {
        layer_options.max_layers - count
    } else {
        0
    };
    let (chunks, rest) = split_groups(slice_of(&groups), layer_size_of(layer_options), room);
    proof {
        let pieces = atom_chunks(places, views, all, options);
        let left = atoms_left(places, views, all, options);
        let size = layer_size(options);
        let left_room = layers_left(places, options);
        assert forall|j: int| 0 <= j < taken@.len() implies (#[trigger] taken@[j]).wf()
            && taken@[j]@ == taken_ids(places, views, all, j) by {
            assert(direct[j]@ == direct_ids(places[j], views, all));
        }
        assert(keys.deep_view().len() <= usize::MAX) by {
            let n: usize = keys.len();
        }
        assert forall|i: int, k: int|
            0 <= i < chunks@.len() && 0 <= k < chunks@[i].indices@.len() implies (
        #[trigger] chunks@[i].indices@[k]) < atoms@.len() by {
            assert(pieces[i] == chunks@[i].deep_view());
            assert(chunks@[i].deep_view().indices =~= chunks@[i].indices@);
            lemma_spread_contains(pieces, i, k);
            lemma_atom_indices(keys.deep_view(), size, left_room, chunks@[i].indices@[k]);
        }
        assert forall|k: int| 0 <= k < rest@.len() implies (#[trigger] rest@[k]) < atoms@.len() by {
            assert(left.contains(left[k]));
            lemma_atom_indices(keys.deep_view(), size, left_room, left[k]);
        }
    }
    Arrangement { taken, chunks, rest }
}

fn lines_fit(atoms: &[SemReviewAtom], indices: &[usize]) -> (fit: bool)
    requires
        forall|k: int| 0 <= k < indices@.len() ==> (#[trigger] indices@[k]) < atoms@.len(),
    ensures
        fit == (line_total(picked_atoms(atoms.deep_view(), indices@)) <= usize::MAX),
{
    let ghost inside = picked_atoms(atoms.deep_view(), indices@);
    let mut total: usize = 0;
    let mut k: usize = 0;
    while k < indices.len()
        invariant
            k <= indices@.len(),
            forall|m: int| 0 <= m < indices@.len() ==> (#[trigger] indices@[m]) < atoms@.len(),
            inside == picked_atoms(atoms.deep_view(), indices@),
            total == line_total(inside.take(k as int)),
        decreases indices@.len() - k,
    {
        let lines: usize = atoms[indices[k]].changed_lines;
        proof {
            lemma_line_total(inside, k as int);
        }
        if lines > usize::MAX - total {
            return false;
        }
        total = total + lines;
        k = k + 1;
    }
    assert(inside.take(k as int) =~= inside);
    true
}

/// Tells whether the changed lines of each added layer can be counted.
pub fn can_count_lines(
    plan: &SemReviewLayerPlan,
    analysis: &SemDiffAnalysis,
    atoms: &[SemReviewAtom],
    layer_options: &SemLayerGenerationOptions,
) -> (can: bool)
    ensures
        can == lines_can_be_counted(
            plan.deep_view().layers,
            analysis.deep_view().changes,
            atoms.deep_view(),
            *layer_options,
        ),
{
    let arrangement = arrange_atoms(
        slice_of(&plan.layers),
        slice_of(&analysis.changes),
        atoms,
        layer_options,
    );
    let ghost pieces = arrangement.chunks.deep_view();
    let ghost all = atoms.deep_view();
    let mut i: usize = 0;
    while i < arrangement.chunks.len()
        invariant
            i <= arrangement.chunks@.len(),
            all == atoms.deep_view(),
            pieces == arrangement.chunks.deep_view(),
            pieces == atom_chunks(
                plan.deep_view().layers,
                analysis.deep_view().changes,
                all,
                *layer_options,
            ),
            forall|j: int, k: int|
                0 <= j < arrangement.chunks@.len() && 0 <= k
                    < arrangement.chunks@[j].indices@.len() ==> (
                #[trigger] arrangement.chunks@[j].indices@[k]) < atoms@.len(),
            forall|j: int|
                0 <= j < i ==> line_total(picked_atoms(all, (#[trigger] pieces[j]).indices))
                    <= usize::MAX,
        decreases arrangement.chunks@.len() - i,
    {
        let chunk = &arrangement.chunks[i];
        assert(pieces[i as int] == chunk.deep_view());
        assert(chunk.deep_view().indices =~= chunk.indices@);
        if !lines_fit(atoms, chunk.indices.as_slice()) {
            assert(line_total(picked_atoms(all, pieces[i as int].indices)) > usize::MAX);
            return false;
        }
        i = i + 1;
    }
    true
}

/// Puts atoms into the layers of a plan.
pub fn attach_atoms_to_review_layers<H: Fn(&str) -> String>(
    plan: &mut SemReviewLayerPlan,
    analysis: &SemDiffAnalysis,
    atoms: &[SemReviewAtom],
    layer_options: &SemLayerGenerationOptions,
    hash: &H,
)
    requires
        is_content_hash(*hash),
        lines_can_be_counted(
            old(plan).deep_view().layers,
            analysis.deep_view().changes,
            atoms.deep_view(),
            *layer_options,
        ),
    ensures
        final(plan).deep_view() == plan_with_atoms(
            *hash,
            old(plan).deep_view(),
            analysis.deep_view().changes,
            atoms.deep_view(),
            *layer_options,
        ),
{
    let ghost start = plan.deep_view();
    let ghost places = start.layers;
    let ghost views = analysis.deep_view().changes;
    let ghost all = atoms.deep_view();
    let ghost options = *layer_options;
    let Arrangement { taken, chunks, rest } = arrange_atoms(
        slice_of(&plan.layers),
        slice_of(&analysis.changes),
        atoms,
        layer_options,
    );
    let ghost pieces = atom_chunks(places, views, all, options);
    let ghost left = atoms_left(places, views, all, options);
    fill_layers(&mut plan.layers, taken);
    let ghost filled = filled_layers(places, views, all);
    let ghost added = added_layers(*hash, places, views, all, options);
    assert(plan.layers.deep_view() =~= filled + added.take(0));
    let mut i: usize = 0;
    while i < chunks.len()
        invariant
            i <= chunks@.len(),
            is_content_hash(*hash),
            all == atoms.deep_view(),
            forall|j: int, k: int|
                0 <= j < chunks@.len() && 0 <= k < chunks@[j].indices@.len() ==> (
                #[trigger] chunks@[j].indices@[k]) < atoms@.len(),
            lines_can_be_counted(places, views, all, options),
            pieces == atom_chunks(places, views, all, options),
            pieces == chunks.deep_view(),
            filled == filled_layers(places, views, all),
            filled.len() == places.len(),
            added == added_layers(*hash, places, views, all, options),
            plan.layers.deep_view() == filled + added.take(i as int),
            plan.api_version@ == start.api_version,
            plan.cache_key@ == start.cache_key,
            plan.manual_review_change_indices.deep_view() == start.manual_review_change_indices,
            plan.warnings.deep_view() == start.warnings,
        decreases chunks@.len() - i,
    {
        let ghost before = plan.layers.deep_view();
        let chunk = &chunks[i];
        assert(pieces[i as int] == chunk.deep_view());
        assert(chunk.deep_view().indices =~= chunk.indices@);
        let index: usize = plan.layers.len();
        assert(index == places.len() + i) by {
            assert(before.len() == filled.len() + added.take(i as int).len());
        }
        let mut layer = layer_from_atom_indices(
            index,
            chunk.key.as_str(),
            chunk.indices.as_slice(),
            atoms,
            hash,
        );
        let ghost plain = layer.deep_view();
        layer.atom_ids = ordered_texts(slice_of(&layer.atom_ids));
        assert(layer.deep_view() == with_ids(plain, plain.atom_ids.to_set()));
        assert(pieces[i as int] == (GroupView { key: chunk.key@, indices: chunk.indices@ }));
        assert(plain == atom_layer(*hash, places.len() + i as nat, pieces[i as int], all));
        push_item(&mut plan.layers, layer);
        assert(plan.layers.deep_view() =~= filled + added.take(i + 1));
        i = i + 1;
    }
    assert(added.take(i as int) =~= added);
    let mut manual = manual_atoms(atoms);
    let ghost by_host = manual@;
    let ghost left_ids = picked_atoms(all, left).map_values(id_of());
    let mut k: usize = 0;
    assert(manual@ =~= by_host.union(left_ids.take(0).to_set()));
    while k < rest.len()
        invariant
            k <= rest@.len(),
            all == atoms.deep_view(),
            forall|m: int| 0 <= m < rest@.len() ==> (#[trigger] rest@[m]) < atoms@.len(),
            rest@ == left,
            left_ids == picked_atoms(all, left).map_values(id_of()),
            manual.wf(),
            manual@ == by_host.union(left_ids.take(k as int).to_set()),
        decreases rest@.len() - k,
    {
        proof {
            lemma_take_to_set(left_ids, k as int);
        }
        manual.insert(atoms[rest[k]].atom_id.clone());
        assert(manual@ =~= by_host.union(left_ids.take(k + 1).to_set()));
        k = k + 1;
    }
    assert(left_ids.take(k as int) =~= left_ids);
    plan.manual_review_atom_ids = manual.into_vec();
    add_atom_layer_dependencies(&mut plan.layers, atoms);
}

/// A plan with atoms for an analyzed diff.
pub open spec fn atom_layer_plan<H: Fn(&str) -> String>(
    hash: H,
    analysis: AnalysisView,
    atoms: Seq<AtomView>,
    layer_options: SemLayerGenerationOptions,
    options: OptionsView,
) -> PlanView {
    PlanView {
        cache_key: review_atom_layer_key(
            hash,
            analysis.cache_key,
            atoms,
            layer_options,
            options,
        ),
        ..plan_with_atoms(
            hash,
            layer_plan(hash, analysis, layer_options, options),
            analysis.changes,
            atoms,
            layer_options,
        )
    }
}

fn with_atoms_attached<H: Fn(&str) -> String>(
    plan: SemReviewLayerPlan,
    analysis: &SemDiffAnalysis,
    atoms: &[SemReviewAtom],
    layer_options: &SemLayerGenerationOptions,
    options: &SemEmbeddedOptions,
    hash: &H,
) -> (with_atoms: SemReviewLayerPlan)
    requires
        is_content_hash(*hash),
        plan.deep_view() == layer_plan(
            *hash,
            analysis.deep_view(),
            *layer_options,
            options.deep_view(),
        ),
        lines_can_be_counted(
            plan.deep_view().layers,
            analysis.deep_view().changes,
            atoms.deep_view(),
            *layer_options,
        ),
    ensures
        with_atoms.deep_view() == atom_layer_plan(
            *hash,
            analysis.deep_view(),
            atoms.deep_view(),
            *layer_options,
            options.deep_view(),
        ),
{
    let mut plan = plan;
    attach_atoms_to_review_layers(&mut plan, analysis, atoms, layer_options, hash);
    plan.cache_key = review_atom_layer_cache_key(
        analysis.cache_key.as_str(),
        atoms,
        layer_options,
        options,
        hash,
    );
    plan
}

/// Analyzes changed files and puts what changed, and the atoms of a review,
/// into layers.
pub fn generate_review_layers_for_atoms<H: Fn(&str) -> String>(
    changes: &[SemFileChange],
    atoms: &[SemReviewAtom],
    layer_options: &SemLayerGenerationOptions,
    options: &SemEmbeddedOptions,
    registry: &ParserRegistry,
    result: &DiffResult,
    hash: &H,
) -> (plan: SemReviewLayerPlan)
    requires
        is_content_hash(*hash),
        ({
            let analysis = analysis_of(
                *hash,
                changes.deep_view(),
                options.deep_view(),
                registry.deep_view(),
                result.deep_view(),
            );
            lines_can_be_counted(
                layer_plan(*hash, analysis, *layer_options, options.deep_view()).layers,
                analysis.changes,
                atoms.deep_view(),
                *layer_options,
            )
        }),
    ensures
        plan.deep_view() == atom_layer_plan(
            *hash,
            analysis_of(
                *hash,
                changes.deep_view(),
                options.deep_view(),
                registry.deep_view(),
                result.deep_view(),
            ),
            atoms.deep_view(),
            *layer_options,
            options.deep_view(),
        ),
{
    let analysis = analyze_file_changes(changes, options, registry, result, hash);
    let plan = review_layers_from_analysis(&analysis, layer_options, options, hash);
    with_atoms_attached(plan, &analysis, atoms, layer_options, options, hash)
}

/// Analyzes changed files and puts what changed, and the atoms of a review,
/// into layers, if the changed lines of each layer can be counted.
pub fn try_generate_review_layers_for_atoms<H: Fn(&str) -> String>(
    changes: &[SemFileChange],
    atoms: &[SemReviewAtom],
    layer_options: &SemLayerGenerationOptions,
    options: &SemEmbeddedOptions,
    registry: &ParserRegistry,
    result: &DiffResult,
    hash: &H,
) -> (plan: Option<SemReviewLayerPlan>)
    requires
        is_content_hash(*hash),
    ensures
        ({
            let analysis = analysis_of(
                *hash,
                changes.deep_view(),
                options.deep_view(),
                registry.deep_view(),
                result.deep_view(),
            );
            let can_be_counted = lines_can_be_counted(
                layer_plan(*hash, analysis, *layer_options, options.deep_view()).layers,
                analysis.changes,
                atoms.deep_view(),
                *layer_options,
            );
            plan.deep_view() == if can_be_counted {
                Some(
                    atom_layer_plan(
                        *hash,
                        analysis,
                        atoms.deep_view(),
                        *layer_options,
                        options.deep_view(),
                    ),
                )
            } else {
                None
            }
        }),
{
    let analysis = analyze_file_changes(changes, options, registry, result, hash);
    let plan = review_layers_from_analysis(&analysis, layer_options, options, hash);
    if can_count_lines(&plan, &analysis, atoms, layer_options) {
        Some(with_atoms_attached(plan, &analysis, atoms, layer_options, options, hash))
    } else {
        None
    }
}

} // verus!
