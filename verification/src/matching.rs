//! Which atoms of a review belong to which changes and layers.

use vstd::prelude::*;

use crate::seqs::{present, push_item, slice_of};
use crate::text::{option_is_text, same_text};
use crate::types::{
    AtomView, EmbeddedChangeView, LayerView, RangeView, SemEmbeddedChange, SemEntityRange,
    SemLineRange, SemReviewAtom, SemReviewLayer,
};

verus! {

/// Whether a text stands in a list.
pub fn text_in(texts: &[String], text: &str) -> (found: bool)
    ensures
        found == texts.deep_view().contains(text@),
{
    let ghost all = texts.deep_view();
    let mut i: usize = 0;
    while i < texts.len()
        invariant
            i <= texts@.len(),
            all == texts.deep_view(),
            forall|j: int| 0 <= j < i ==> #[trigger] all[j] != text@,
        decreases texts@.len() - i,
    {
        if same_text(texts[i].as_str(), text) {
            assert(all[i as int] == text@);
            return true;
        }
        i = i + 1;
    }
    false
}

/// Whether a number stands in a list.
pub fn number_in(numbers: &[usize], number: usize) -> (found: bool)
    ensures
        found == numbers@.contains(number),
{
    let mut i: usize = 0;
    while i < numbers.len()
        invariant
            i <= numbers@.len(),
            forall|j: int| 0 <= j < i ==> #[trigger] numbers@[j] != number,
        decreases numbers@.len() - i,
    {
        if numbers[i] == number {
            assert(numbers@[i as int] == number);
            return true;
        }
        i = i + 1;
    }
    false
}

// ---------------------------------------------------------------------------
// Paths

/// Whether an atom is in a file, under its path now or before.
pub open spec fn atom_has_path(atom: AtomView, path: Seq<char>) -> bool {
    atom.file_path == path || atom.old_file_path == Some(path)
}

/// Whether an atom is in a file, under its path now or before.
pub fn atom_path_matches(atom: &SemReviewAtom, path: &str) -> (matches: bool)
    ensures
        matches == atom_has_path(atom.deep_view(), path@),
{
    same_text(atom.file_path.as_str(), path) || option_is_text(&atom.old_file_path, path)
}

/// Whether an atom is in one of some files.
pub open spec fn atom_in_files(atom: AtomView, paths: Seq<Seq<char>>) -> bool {
    exists|i: int| 0 <= i < paths.len() && atom_has_path(atom, #[trigger] paths[i])
}

fn is_in_files(atom: &SemReviewAtom, paths: &[String]) -> (found: bool)
    ensures
        found == atom_in_files(atom.deep_view(), paths.deep_view()),
{
    let ghost all = paths.deep_view();
    let mut i: usize = 0;
    while i < paths.len()
        invariant
            i <= paths@.len(),
            all == paths.deep_view(),
            forall|j: int| 0 <= j < i ==> !atom_has_path(atom.deep_view(), #[trigger] all[j]),
        decreases paths@.len() - i,
    {
        if atom_path_matches(atom, paths[i].as_str()) {
            assert(atom_has_path(atom.deep_view(), all[i as int]));
            return true;
        }
        i = i + 1;
    }
    false
}

/// The paths of a changed entity: now, before, and where it stands.
pub open spec fn change_paths(change: EmbeddedChangeView) -> Seq<Seq<char>> {
    seq![change.change.file_path] + present(change.change.old_file_path) + range_path(
        change.before_range,
    ) + range_path(change.after_range)
}

/// The path of a place, where there is one.
pub open spec fn range_path(range: Option<RangeView>) -> Seq<Seq<char>> {
    match range {
        Some(range) => seq![range.file_path],
        None => Seq::empty(),
    }
}

fn push_present(texts: &mut Vec<String>, text: &Option<String>)
    ensures
        final(texts).deep_view() == old(texts).deep_view() + present(text.deep_view()),
{
    let ghost before = texts.deep_view();
    if let Some(text) = text {
        push_item(texts, text.clone());
    }
    assert(texts.deep_view() =~= before + present(text.deep_view()));
}

fn push_range_path(texts: &mut Vec<String>, range: &Option<SemEntityRange>)
    ensures
        final(texts).deep_view() == old(texts).deep_view() + range_path(range.deep_view()),
{
    let ghost before = texts.deep_view();
    if let Some(range) = range {
        push_item(texts, range.file_path.clone());
    }
    assert(texts.deep_view() =~= before + range_path(range.deep_view()));
}

/// Whether an atom is in a file of a changed entity.
pub fn change_paths_match_atom(change: &SemEmbeddedChange, atom: &SemReviewAtom) -> (matches: bool)
    ensures
        matches == atom_in_files(atom.deep_view(), change_paths(change.deep_view())),
{
    let mut paths: Vec<String> = Vec::new();
    push_item(&mut paths, change.change.file_path.clone());
    assert(paths.deep_view() =~= seq![change.change.file_path@]);
    push_present(&mut paths, &change.change.old_file_path);
    push_range_path(&mut paths, &change.before_range);
    push_range_path(&mut paths, &change.after_range);
    is_in_files(atom, slice_of(&paths))
}

/// Whether an atom is in a file of a layer.
pub fn layer_file_paths_match_atom(layer: &SemReviewLayer, atom: &SemReviewAtom) -> (matches: bool)
    ensures
        matches == atom_in_files(atom.deep_view(), layer.deep_view().file_paths),
{
    is_in_files(atom, slice_of(&layer.file_paths))
}

// ---------------------------------------------------------------------------
// Symbols

/// The symbols that an atom names, defines or refers to.
pub open spec fn atom_symbols(atom: AtomView) -> Seq<Seq<char>> {
    present(atom.symbol_name) + atom.defined_symbols + atom.referenced_symbols
}

/// Whether one of the symbols of an atom is among some names.
pub open spec fn names_symbol(atom: AtomView, names: Seq<Seq<char>>) -> bool {
    exists|i: int|
        0 <= i < atom_symbols(atom).len() && names.contains(#[trigger] atom_symbols(atom)[i])
}

/// Whether one of some texts is among others.
pub open spec fn share(texts: Seq<Seq<char>>, names: Seq<Seq<char>>) -> bool {
    exists|i: int| 0 <= i < texts.len() && names.contains(#[trigger] texts[i])
}

fn any_in(texts: &[String], names: &[String]) -> (found: bool)
    ensures
        found == share(texts.deep_view(), names.deep_view()),
{
    let ghost all = texts.deep_view();
    let mut i: usize = 0;
    while i < texts.len()
        invariant
            i <= texts@.len(),
            all == texts.deep_view(),
            forall|j: int| 0 <= j < i ==> !names.deep_view().contains(#[trigger] all[j]),
        decreases texts@.len() - i,
    {
        if text_in(names, texts[i].as_str()) {
            assert(names.deep_view().contains(all[i as int]));
            return true;
        }
        i = i + 1;
    }
    false
}

fn names_one_of(atom: &SemReviewAtom, names: &[String]) -> (found: bool)
    ensures
        found == names_symbol(atom.deep_view(), names.deep_view()),
{
    let ghost view = atom.deep_view();
    let ghost named = present(view.symbol_name);
    let ghost all = atom_symbols(view);
    let ghost wanted = names.deep_view();
    let by_name = match &atom.symbol_name {
        Some(symbol) => text_in(names, symbol.as_str()),
        None => false,
    };
    let by_definition = any_in(slice_of(&atom.defined_symbols), names);
    let by_reference = any_in(slice_of(&atom.referenced_symbols), names);
    proof {
        if by_name {
            assert(all[0] == named[0]);
        }
        if by_definition {
            let i = choose|i: int|
                0 <= i < view.defined_symbols.len() && wanted.contains(
                    #[trigger] view.defined_symbols[i],
                );
            assert(all[named.len() + i] == view.defined_symbols[i]);
        }
        if by_reference {
            let i = choose|i: int|
                0 <= i < view.referenced_symbols.len() && wanted.contains(
                    #[trigger] view.referenced_symbols[i],
                );
            assert(all[named.len() + view.defined_symbols.len() + i]
                == view.referenced_symbols[i]);
        }
        if names_symbol(view, wanted) {
            let i = choose|i: int| 0 <= i < all.len() && wanted.contains(#[trigger] all[i]);
            if i < named.len() {
                assert(all[i] == named[0]);
            } else if i < named.len() + view.defined_symbols.len() {
                assert(all[i] == view.defined_symbols[i - named.len()]);
            } else {
                assert(all[i] == view.referenced_symbols[i - named.len()
                    - view.defined_symbols.len()]);
            }
        }
    }
    by_name || by_definition || by_reference
}

/// The names of a changed entity: now and before.
pub open spec fn change_names(change: EmbeddedChangeView) -> Seq<Seq<char>> {
    seq![change.change.entity_name] + present(change.change.old_entity_name)
}

/// Whether an atom speaks of a changed entity.
pub fn change_symbols_match_atom(change: &SemEmbeddedChange, atom: &SemReviewAtom) -> (matches:
    bool)
    ensures
        matches == names_symbol(atom.deep_view(), change_names(change.deep_view())),
{
    let mut names: Vec<String> = Vec::new();
    push_item(&mut names, change.change.entity_name.clone());
    assert(names.deep_view() =~= seq![change.change.entity_name@]);
    push_present(&mut names, &change.change.old_entity_name);
    names_one_of(atom, slice_of(&names))
}

/// Whether an atom is in a file of a layer and speaks of one of its entities.
pub open spec fn layer_has_symbol(layer: LayerView, atom: AtomView) -> bool {
    atom_in_files(atom, layer.file_paths) && names_symbol(atom, layer.entity_names)
}

/// Whether an atom is in a file of a layer and speaks of one of its entities.
pub fn layer_symbols_match_atom(layer: &SemReviewLayer, atom: &SemReviewAtom) -> (matches: bool)
    ensures
        matches == layer_has_symbol(layer.deep_view(), atom.deep_view()),
{
    layer_file_paths_match_atom(layer, atom) && names_one_of(atom, slice_of(&layer.entity_names))
}

// ---------------------------------------------------------------------------
// Hunks and lines

/// Whether a hunk of an atom touches a changed entity.
pub open spec fn change_has_hunk(change: EmbeddedChangeView, atom: AtomView) -> bool {
    exists|i: int|
        0 <= i < change.hunk_overlaps.len() && atom.hunk_indices.contains(
            (#[trigger] change.hunk_overlaps[i]).hunk_index,
        )
}

/// Whether a hunk of an atom touches a changed entity.
pub fn change_hunks_match_atom(change: &SemEmbeddedChange, atom: &SemReviewAtom) -> (matches: bool)
    ensures
        matches == change_has_hunk(change.deep_view(), atom.deep_view()),
{
    let ghost all = change.deep_view().hunk_overlaps;
    assert(atom.deep_view().hunk_indices =~= atom.hunk_indices@);
    let mut i: usize = 0;
    while i < change.hunk_overlaps.len()
        invariant
            i <= change.hunk_overlaps@.len(),
            all == change.deep_view().hunk_overlaps,
            atom.deep_view().hunk_indices == atom.hunk_indices@,
            forall|j: int|
                0 <= j < i ==> !atom.deep_view().hunk_indices.contains(
                    (#[trigger] all[j]).hunk_index,
                ),
        decreases change.hunk_overlaps@.len() - i,
    {
        assert(all[i as int] == change.hunk_overlaps@[i as int].deep_view());
        if number_in(atom.hunk_indices.as_slice(), change.hunk_overlaps[i].hunk_index) {
            assert(atom.deep_view().hunk_indices.contains(all[i as int].hunk_index));
            return true;
        }
        i = i + 1;
    }
    false
}

/// Whether an atom is in a file of a layer and has one of its hunks.
pub open spec fn layer_has_hunk(layer: LayerView, atom: AtomView) -> bool {
    &&& atom_in_files(atom, layer.file_paths)
    &&& exists|i: int|
        0 <= i < atom.hunk_indices.len() && layer.hunk_indices.contains(
            #[trigger] atom.hunk_indices[i],
        )
}

/// Whether an atom is in a file of a layer and has one of its hunks.
pub fn layer_hunks_match_atom(layer: &SemReviewLayer, atom: &SemReviewAtom) -> (matches: bool)
    ensures
        matches == layer_has_hunk(layer.deep_view(), atom.deep_view()),
{
    if !layer_file_paths_match_atom(layer, atom) {
        return false;
    }
    let ghost mine = atom.deep_view().hunk_indices;
    let ghost theirs = layer.deep_view().hunk_indices;
    assert(mine =~= atom.hunk_indices@);
    assert(theirs =~= layer.hunk_indices@);
    let mut i: usize = 0;
    while i < atom.hunk_indices.len()
        invariant
            i <= atom.hunk_indices@.len(),
            mine == atom.hunk_indices@,
            theirs == layer.hunk_indices@,
            mine == atom.deep_view().hunk_indices,
            theirs == layer.deep_view().hunk_indices,
            atom_in_files(atom.deep_view(), layer.deep_view().file_paths),
            forall|j: int| 0 <= j < i ==> !theirs.contains(#[trigger] mine[j]),
        decreases atom.hunk_indices@.len() - i,
    {
        if number_in(layer.hunk_indices.as_slice(), atom.hunk_indices[i]) {
            assert(theirs.contains(mine[i as int]));
            return true;
        }
        i = i + 1;
    }
    false
}

/// Whether the lines of an atom and of an entity have one in common.
pub open spec fn lines_meet(range: Option<SemLineRange>, entity: Option<RangeView>) -> bool {
    match (range, entity) {
        (Some(range), Some(entity)) => range.start_line <= entity.end_line && entity.start_line
            <= range.end_line,
        _ => false,
    }
}

/// Whether the lines of an atom and of an entity have one in common.
pub fn range_overlaps_entity(
    atom_range: Option<SemLineRange>,
    entity_range: &Option<SemEntityRange>,
) -> (overlap: bool)
    ensures
        overlap == lines_meet(atom_range, entity_range.deep_view()),
{
    match (atom_range, entity_range) {
        (Some(atom_range), Some(entity_range)) => atom_range.start_line <= entity_range.end_line
            && entity_range.start_line <= atom_range.end_line,
        _ => false,
    }
}

/// Whether the lines of an atom meet those of a changed entity on either side.
pub open spec fn change_has_lines(change: EmbeddedChangeView, atom: AtomView) -> bool {
    lines_meet(atom.old_range, change.before_range) || lines_meet(
        atom.new_range,
        change.after_range,
    )
}

/// Whether the lines of an atom meet those of a changed entity on either side.
pub fn change_ranges_match_atom(change: &SemEmbeddedChange, atom: &SemReviewAtom) -> (matches: bool)
    ensures
        matches == change_has_lines(change.deep_view(), atom.deep_view()),
{
    range_overlaps_entity(atom.old_range, &change.before_range) || range_overlaps_entity(
        atom.new_range,
        &change.after_range,
    )
}

// ---------------------------------------------------------------------------
// Changes and layers

/// Whether an atom belongs to a change: it is in one of its files and shares a
/// hunk, a line or a symbol with it, or says nothing of where in the file it is.
pub open spec fn change_takes(change: EmbeddedChangeView, atom: AtomView) -> bool {
    &&& atom_in_files(atom, change_paths(change))
    &&& {
        ||| change_has_hunk(change, atom)
        ||| change_has_lines(change, atom)
        ||| names_symbol(atom, change_names(change))
        ||| atom.hunk_indices.len() == 0 && atom.old_range is None && atom.new_range is None
    }
}

/// Whether an atom belongs to a change.
pub fn embedded_change_matches_atom(change: &SemEmbeddedChange, atom: &SemReviewAtom) -> (matches:
    bool)
    ensures
        matches == change_takes(change.deep_view(), atom.deep_view()),
{
    if !change_paths_match_atom(change, atom) {
        return false;
    }
    change_hunks_match_atom(change, atom) || change_ranges_match_atom(change, atom)
        || change_symbols_match_atom(change, atom) || (atom.hunk_indices.len() == 0
        && atom.old_range.is_none() && atom.new_range.is_none())
}

/// Whether an atom belongs to a change of a layer.
pub open spec fn layer_change_takes(
    layer: LayerView,
    changes: Seq<EmbeddedChangeView>,
    atom: AtomView,
) -> bool {
    exists|i: int|
        0 <= i < layer.change_indices.len() && (#[trigger] layer.change_indices[i]) < changes.len()
            && change_takes(changes[layer.change_indices[i] as int], atom)
}

/// Whether an atom belongs to a layer: to one of its changes, or by a hunk or a
/// symbol in one of its files.
pub open spec fn layer_takes(
    layer: LayerView,
    changes: Seq<EmbeddedChangeView>,
    atom: AtomView,
) -> bool {
    layer_change_takes(layer, changes, atom) || layer_has_hunk(layer, atom) || layer_has_symbol(
        layer,
        atom,
    )
}

/// Whether an atom belongs to a layer. `changes` are those of the diff that the
/// indices of the layer speak of.
pub fn review_layer_matches_atom(
    layer: &SemReviewLayer,
    changes: &[SemEmbeddedChange],
    atom: &SemReviewAtom,
) -> (matches: bool)
    ensures
        matches == layer_takes(layer.deep_view(), changes.deep_view(), atom.deep_view()),
{
    let ghost indices = layer.deep_view().change_indices;
    let ghost all = changes.deep_view();
    assert(indices =~= layer.change_indices@);
    let mut i: usize = 0;
    while i < layer.change_indices.len()
        invariant
            i <= layer.change_indices@.len(),
            indices == layer.change_indices@,
            indices == layer.deep_view().change_indices,
            all == changes.deep_view(),
            forall|j: int|
                0 <= j < i && (#[trigger] indices[j]) < all.len() ==> !change_takes(
                    all[indices[j] as int],
                    atom.deep_view(),
                ),
        decreases layer.change_indices@.len() - i,
    {
        let index: usize = layer.change_indices[i];
        if index < changes.len() {
            assert(all[index as int] == changes@[index as int].deep_view());
            if embedded_change_matches_atom(&changes[index], atom) {
                assert(change_takes(all[indices[i as int] as int], atom.deep_view()));
                return true;
            }
        }
        i = i + 1;
    }
    layer_hunks_match_atom(layer, atom) || layer_symbols_match_atom(layer, atom)
}

} // verus!
