//! Which layers have to be read before which others.

use vstd::prelude::*;

use crate::collections::{ascending, lemma_listed_exists, listed, lookup, StringMap, StringSet};
use crate::roles::{has_test_role, is_test_atom};
use crate::seqs::{
    first_where, lemma_first_where_found, lemma_first_where_step, lemma_take_contains, slice_of,
};
use crate::text::same_text;
use crate::types::{AtomView, LayerView, SemReviewAtom, SemReviewLayer};

verus! {

/// The id of the layer that an atom is in: the last one, where there are more.
pub open spec fn layer_of_atom(layers: Seq<LayerView>, id: Seq<char>) -> Option<Seq<char>>
    decreases layers.len(),
{
    if layers.len() == 0 {
        None
    } else if layers.last().atom_ids.contains(id) {
        Some(layers.last().id)
    } else {
        layer_of_atom(layers.drop_last(), id)
    }
}

/// Whether an atom brings a symbol: it is named after it, or defines it.
pub open spec fn offers(atom: AtomView, symbol: Seq<char>) -> bool {
    &&& symbol.len() > 0
    &&& atom.symbol_name == Some(symbol) || atom.defined_symbols.contains(symbol)
}

/// Whether an atom is in a layer and brings a symbol.
pub open spec fn owns(layers: Seq<LayerView>, symbol: Seq<char>) -> spec_fn(AtomView) -> bool {
    |atom: AtomView| layer_of_atom(layers, atom.atom_id) is Some && offers(atom, symbol)
}

/// The id of the layer that brings a symbol: that of the first atom that does.
pub open spec fn owner(
    layers: Seq<LayerView>,
    atoms: Seq<AtomView>,
    symbol: Seq<char>,
) -> Option<Seq<char>> {
    match first_where(atoms, owns(layers, symbol)) {
        Some(atom) => layer_of_atom(layers, atom.atom_id),
        None => None,
    }
}

/// The ids of all layers that bring symbols.
pub open spec fn owners(layers: Seq<LayerView>, atoms: Seq<AtomView>) -> Set<Seq<char>> {
    Set::new(|id: Seq<char>| exists|symbol: Seq<char>| #[trigger]
        owner(layers, atoms, symbol) == Some(id))
}

/// Where the last atom with an id stands.
pub open spec fn last_atom(atoms: Seq<AtomView>, id: Seq<char>) -> Option<usize>
    decreases atoms.len(),
{
    if atoms.len() == 0 {
        None
    } else if atoms.last().atom_id == id {
        Some((atoms.len() - 1) as usize)
    } else {
        last_atom(atoms.drop_last(), id)
    }
}

/// Whether an atom refers to a symbol that a layer brings.
pub open spec fn refers_to(
    layers: Seq<LayerView>,
    atoms: Seq<AtomView>,
    atom: AtomView,
    layer_id: Seq<char>,
) -> bool {
    exists|i: int|
        0 <= i < atom.referenced_symbols.len() && owner(
            layers,
            atoms,
            #[trigger] atom.referenced_symbols[i],
        ) == Some(layer_id)
}

/// Whether an atom needs a layer: it refers to a symbol that the layer brings
/// or, being a test, the layer brings any symbol.
pub open spec fn needs(
    layers: Seq<LayerView>,
    atoms: Seq<AtomView>,
    atom: AtomView,
    layer_id: Seq<char>,
) -> bool {
    (is_test_atom(atom) && owners(layers, atoms).contains(layer_id)) || refers_to(
        layers,
        atoms,
        atom,
        layer_id,
    )
}

/// Whether the atom with an id needs a layer.
pub open spec fn id_needs(
    layers: Seq<LayerView>,
    atoms: Seq<AtomView>,
    id: Seq<char>,
    layer_id: Seq<char>,
) -> bool {
    match last_atom(atoms, id) {
        Some(i) => needs(layers, atoms, atoms[i as int], layer_id),
        None => false,
    }
}

/// The ids of the other layers that the atoms with some ids need.
pub open spec fn needed_by(
    layers: Seq<LayerView>,
    atoms: Seq<AtomView>,
    own_id: Seq<char>,
    atom_ids: Seq<Seq<char>>,
) -> Set<Seq<char>> {
    Set::new(
        |layer_id: Seq<char>|
            layer_id != own_id && exists|i: int|
                0 <= i < atom_ids.len() && id_needs(
                    layers,
                    atoms,
                    #[trigger] atom_ids[i],
                    layer_id,
                ),
    )
}

/// A layer that also depends on the layers that its atoms need. The ids are in
/// order, each once.
pub open spec fn dependent(layers: Seq<LayerView>, atoms: Seq<AtomView>) -> spec_fn(
    LayerView,
) -> LayerView {
    |layer: LayerView|
        LayerView {
            depends_on_layer_ids: listed(
                layer.depends_on_layer_ids.to_set().union(
                    needed_by(layers, atoms, layer.id, layer.atom_ids),
                ),
            ),
            ..layer
        }
}

/// The layers, each depending also on the layers that its atoms need.
pub open spec fn with_dependencies(layers: Seq<LayerView>, atoms: Seq<AtomView>) -> Seq<LayerView> {
    layers.map_values(dependent(layers, atoms))
}

fn map_atoms_to_layers(layers: &[SemReviewLayer]) -> (map: StringMap<String>)
    ensures
        map.wf(),
        forall|id: Seq<char>| #[trigger]
            lookup(map.deep_view(), id) == layer_of_atom(layers.deep_view(), id),
{
    let ghost all = layers.deep_view();
    let mut map: StringMap<String> = StringMap::new();
    let mut i: usize = 0;
    while i < layers.len()
        invariant
            i <= layers@.len(),
            all == layers.deep_view(),
            map.wf(),
            forall|id: Seq<char>| #[trigger]
                lookup(map.deep_view(), id) == layer_of_atom(all.take(i as int), id),
        decreases layers@.len() - i,
    {
        let layer = &layers[i];
        let ghost ids = layer.deep_view().atom_ids;
        let ghost shorter = all.take(i as int);
        let ghost longer = all.take(i + 1);
        let mut k: usize = 0;
        while k < layer.atom_ids.len()
            invariant
                k <= layer.atom_ids@.len(),
                ids == layer.deep_view().atom_ids,
                map.wf(),
                forall|id: Seq<char>| #[trigger]
                    lookup(map.deep_view(), id) == if ids.take(k as int).contains(id) {
                        Some(layer.id@)
                    } else {
                        layer_of_atom(shorter, id)
                    },
            decreases layer.atom_ids@.len() - k,
        {
            let ghost before = map.deep_view();
            map.insert(layer.atom_ids[k].clone(), layer.id.clone());
            proof {
                let added = ids[k as int];
                assert(map.deep_view() =~= before.insert(added, layer.id@));
                assert forall|id: Seq<char>| #[trigger]
                    lookup(map.deep_view(), id) == if ids.take(k + 1).contains(id) {
                        Some(layer.id@)
                    } else {
                        layer_of_atom(shorter, id)
                    } by {
                    assert(lookup(before, id) == if ids.take(k as int).contains(id) {
                        Some(layer.id@)
                    } else {
                        layer_of_atom(shorter, id)
                    });
                    lemma_take_contains(ids, k as int, id);
                }
            }
            k = k + 1;
        }
        proof {
            assert(ids.take(k as int) =~= ids);
            assert(longer.drop_last() =~= shorter);
            assert(longer.last() == layer.deep_view());
        }
        i = i + 1;
    }
    assert(all.take(i as int) =~= all);
    map
}

fn claim_symbol(
    owners: &mut StringMap<String>,
    symbol: &String,
    layer_id: &String,
)
    requires
        old(owners).wf(),
    ensures
        final(owners).wf(),
        forall|s: Seq<char>| #[trigger]
            lookup(final(owners).deep_view(), s) == if s == symbol@ && s.len() > 0 && lookup(
                old(owners).deep_view(),
                s,
            ) is None {
                Some(layer_id@)
            } else {
                lookup(old(owners).deep_view(), s)
            },
{
    let ghost before = owners.deep_view();
    if same_text(symbol.as_str(), "") {
        proof {
            reveal_strlit("");
        }
        return ;
    }
    proof {
        reveal_strlit("");
        if symbol@.len() == 0 {
            assert(symbol@ =~= ""@);
        }
    }
    let free = owners.get(symbol.as_str()).is_none();
    if free {
        owners.insert(symbol.clone(), layer_id.clone());
        assert(owners.deep_view() =~= before.insert(symbol@, layer_id@));
    }
}

fn map_symbols_to_layers(
    layers: &[SemReviewLayer],
    atoms: &[SemReviewAtom],
) -> (map: StringMap<String>)
    ensures
        map.wf(),
        forall|symbol: Seq<char>| #[trigger]
            lookup(map.deep_view(), symbol) == owner(
                layers.deep_view(),
                atoms.deep_view(),
                symbol,
            ),
{
    let ghost places = layers.deep_view();
    let ghost all = atoms.deep_view();
    let atom_to_layer = map_atoms_to_layers(layers);
    let mut map: StringMap<String> = StringMap::new();
    let mut i: usize = 0;
    while i < atoms.len()
        invariant
            i <= atoms@.len(),
            places == layers.deep_view(),
            all == atoms.deep_view(),
            atom_to_layer.wf(),
            forall|id: Seq<char>| #[trigger]
                lookup(atom_to_layer.deep_view(), id) == layer_of_atom(places, id),
            map.wf(),
            forall|symbol: Seq<char>| #[trigger]
                lookup(map.deep_view(), symbol) == owner(places, all.take(i as int), symbol),
        decreases atoms@.len() - i,
    {
        let atom = &atoms[i];
        let ghost view = all[i as int];
        let ghost before = map.deep_view();
        let ghost shorter = all.take(i as int);
        let ghost longer = all.take(i + 1);
        assert(lookup(atom_to_layer.deep_view(), view.atom_id) == layer_of_atom(
            places,
            view.atom_id,
        ));
        if let Some(layer_id) = atom_to_layer.get(atom.atom_id.as_str()) {
            assert(layer_of_atom(places, view.atom_id) == Some(layer_id@));
            if let Some(symbol) = &atom.symbol_name {
                claim_symbol(&mut map, symbol, layer_id);
            }
            let ghost named = map.deep_view();
            assert forall|s: Seq<char>| #[trigger]
                lookup(named, s) == if lookup(before, s) is None && s.len() > 0 && view.symbol_name
                    == Some(s) {
                    Some(layer_id@)
                } else {
                    lookup(before, s)
                } by {}
            let ghost symbols = view.defined_symbols;
            let mut k: usize = 0;
            while k < atom.defined_symbols.len()
                invariant
                    k <= atom.defined_symbols@.len(),
                    symbols == atom.deep_view().defined_symbols,
                    map.wf(),
                    forall|s: Seq<char>| #[trigger]
                        lookup(map.deep_view(), s) == if lookup(named, s) is None && s.len() > 0
                            && symbols.take(k as int).contains(s) {
                            Some(layer_id@)
                        } else {
                            lookup(named, s)
                        },
                decreases atom.defined_symbols@.len() - k,
            {
                let ghost last = map.deep_view();
                claim_symbol(&mut map, &atom.defined_symbols[k], layer_id);
                proof {
                    assert forall|s: Seq<char>| #[trigger]
                        lookup(map.deep_view(), s) == if lookup(named, s) is None && s.len() > 0
                            && symbols.take(k + 1).contains(s) {
                            Some(layer_id@)
                        } else {
                            lookup(named, s)
                        } by {
                        assert(lookup(last, s) == if lookup(named, s) is None && s.len() > 0
                            && symbols.take(k as int).contains(s) {
                            Some(layer_id@)
                        } else {
                            lookup(named, s)
                        });
                        lemma_take_contains(symbols, k as int, s);
                    }
                }
                k = k + 1;
            }
            assert(symbols.take(k as int) =~= symbols);
            assert forall|s: Seq<char>| #[trigger]
                lookup(map.deep_view(), s) == if lookup(before, s) is None && offers(view, s) {
                    Some(layer_id@)
                } else {
                    lookup(before, s)
                } by {
                assert(lookup(named, s) == if lookup(before, s) is None && s.len() > 0
                    && view.symbol_name == Some(s) {
                    Some(layer_id@)
                } else {
                    lookup(before, s)
                });
            }
        }
        proof {
            assert forall|symbol: Seq<char>| #[trigger]
                lookup(map.deep_view(), symbol) == owner(places, longer, symbol) by {
                assert(lookup(before, symbol) == owner(places, shorter, symbol));
                lemma_first_where_step(all, owns(places, symbol), i as int);
                lemma_owner_found(places, shorter, symbol);
            }
        }
        i = i + 1;
    }
    assert(all.take(i as int) =~= all);
    map
}

/// There is an owner just where an atom in a layer brings the symbol.
proof fn lemma_owner_found(layers: Seq<LayerView>, atoms: Seq<AtomView>, symbol: Seq<char>)
    ensures
        owner(layers, atoms, symbol) is Some <==> first_where(atoms, owns(layers, symbol)) is Some,
{
    lemma_first_where_found(atoms, owns(layers, symbol));
}

fn map_ids_to_atoms(atoms: &[SemReviewAtom]) -> (map: StringMap<usize>)
    ensures
        map.wf(),
        forall|id: Seq<char>| #[trigger] lookup(map@, id) == last_atom(atoms.deep_view(), id),
{
    let ghost all = atoms.deep_view();
    let mut map: StringMap<usize> = StringMap::new();
    let mut i: usize = 0;
    while i < atoms.len()
        invariant
            i <= atoms@.len(),
            all == atoms.deep_view(),
            map.wf(),
            forall|id: Seq<char>| #[trigger]
                lookup(map@, id) == last_atom(all.take(i as int), id),
        decreases atoms@.len() - i,
    {
        let ghost before = map@;
        map.insert(atoms[i].atom_id.clone(), i);
        proof {
            let shorter = all.take(i as int);
            let longer = all.take(i + 1);
            assert(longer.drop_last() =~= shorter);
            assert(longer.last() == all[i as int]);
            assert forall|id: Seq<char>| #[trigger] lookup(map@, id) == last_atom(longer, id) by {
                assert(lookup(before, id) == last_atom(shorter, id));
            }
        }
        i = i + 1;
    }
    assert(all.take(i as int) =~= all);
    map
}

fn values_of(map: &StringMap<String>) -> (values: StringSet)
    requires
        map.wf(),
    ensures
        values.wf(),
        forall|v: Seq<char>| #[trigger]
            values@.contains(v) <==> exists|k: Seq<char>| #[trigger] lookup(map.deep_view(), k)
                == Some(v),
{
    let ghost names = listed(map@.dom());
    let ghost m = map.deep_view();
    let mut values = StringSet::new();
    let n: usize = map.len();
    let mut i: usize = 0;
    while i < n
        invariant
            i <= n,
            n == names.len(),
            names == listed(map@.dom()),
            m == map.deep_view(),
            map.wf(),
            values.wf(),
            forall|v: Seq<char>| #[trigger]
                values@.contains(v) <==> exists|j: int|
                    0 <= j < i && lookup(m, #[trigger] names[j]) == Some(v),
        decreases n - i,
    {
        let ghost before = values@;
        let value = map.value_at(i).clone();
        proof {
            assert(m.contains_key(names[i as int]));
            assert(lookup(m, names[i as int]) == Some(value@));
        }
        values.insert(value);
        proof {
            assert forall|v: Seq<char>| #[trigger]
                values@.contains(v) <==> exists|j: int|
                    0 <= j < i + 1 && lookup(m, #[trigger] names[j]) == Some(v) by {
                assert(before.contains(v) <==> exists|j: int|
                    0 <= j < i && lookup(m, #[trigger] names[j]) == Some(v));
                if before.contains(v) {
                    let j = choose|j: int| 0 <= j < i && lookup(m, #[trigger] names[j]) == Some(v);
                    assert(lookup(m, names[j]) == Some(v));
                }
                if v == value@ {
                    assert(lookup(m, names[i as int]) == Some(v));
                }
            }
        }
        i = i + 1;
    }
    proof {
        map.lemma_listed_keys();
        assert forall|v: Seq<char>| #[trigger]
            values@.contains(v) <==> exists|k: Seq<char>| #[trigger] lookup(m, k) == Some(v) by {
            if values@.contains(v) {
                let j = choose|j: int| 0 <= j < n && lookup(m, #[trigger] names[j]) == Some(v);
                assert(lookup(m, names[j]) == Some(v));
            }
            if exists|k: Seq<char>| #[trigger] lookup(m, k) == Some(v) {
                let k = choose|k: Seq<char>| #[trigger] lookup(m, k) == Some(v);
                assert(names.to_set().contains(k));
                let j = choose|j: int| 0 <= j < names.len() && names[j] == k;
                assert(lookup(m, names[j]) == Some(v));
            }
        }
    }
    values
}

/// Collects the layers that one atom needs, but for its own.
fn insert_needed(
    needed: &mut StringSet,
    own_id: &str,
    atom: &SemReviewAtom,
    owner_ids: &[String],
    symbol_owner: &StringMap<String>,
    layers: &[SemReviewLayer],
    atoms: &[SemReviewAtom],
)
    requires
        old(needed).wf(),
        symbol_owner.wf(),
        owner_ids.deep_view().to_set() == owners(layers.deep_view(), atoms.deep_view()),
        forall|symbol: Seq<char>| #[trigger]
            lookup(symbol_owner.deep_view(), symbol) == owner(
                layers.deep_view(),
                atoms.deep_view(),
                symbol,
            ),
    ensures
        final(needed).wf(),
        forall|id: Seq<char>| #[trigger]
            final(needed)@.contains(id) <==> old(needed)@.contains(id) || (id != own_id@ && needs(
                layers.deep_view(),
                atoms.deep_view(),
                atom.deep_view(),
                id,
            )),
{
    let ghost places = layers.deep_view();
    let ghost all = atoms.deep_view();
    let ghost view = atom.deep_view();
    let ghost start = needed@;
    let ghost ids = owner_ids.deep_view();
    let is_test = has_test_role(atom);
    if is_test {
        let mut i: usize = 0;
        while i < owner_ids.len()
            invariant
                i <= owner_ids@.len(),
                ids == owner_ids.deep_view(),
                needed.wf(),
                forall|id: Seq<char>| #[trigger]
                    needed@.contains(id) <==> start.contains(id) || (id != own_id@ && ids.take(
                        i as int,
                    ).contains(id)),
            decreases owner_ids@.len() - i,
        {
            let ghost before = needed@;
            if !same_text(owner_ids[i].as_str(), own_id) {
                needed.insert(owner_ids[i].clone());
            }
            proof {
                assert forall|id: Seq<char>| #[trigger]
                    needed@.contains(id) <==> start.contains(id) || (id != own_id@ && ids.take(
                        i + 1,
                    ).contains(id)) by {
                    assert(before.contains(id) <==> start.contains(id) || (id != own_id@
                        && ids.take(i as int).contains(id)));
                    lemma_take_contains(ids, i as int, id);
                }
            }
            i = i + 1;
        }
        assert(ids.take(i as int) =~= ids);
    }
    let ghost tested = needed@;
    assert forall|id: Seq<char>| #[trigger]
        tested.contains(id) <==> start.contains(id) || (id != own_id@ && is_test_atom(view)
            && owners(places, all).contains(id)) by {
        if is_test {
            assert(ids.contains(id) <==> ids.to_set().contains(id));
        }
    }
    let ghost symbols = view.referenced_symbols;
    let mut k: usize = 0;
    while k < atom.referenced_symbols.len()
        invariant
            k <= atom.referenced_symbols@.len(),
            symbols == atom.deep_view().referenced_symbols,
            symbol_owner.wf(),
            forall|symbol: Seq<char>| #[trigger]
                lookup(symbol_owner.deep_view(), symbol) == owner(places, all, symbol),
            needed.wf(),
            forall|id: Seq<char>| #[trigger]
                needed@.contains(id) <==> tested.contains(id) || (id != own_id@ && exists|m: int|
                    0 <= m < k && owner(places, all, #[trigger] symbols[m]) == Some(id)),
        decreases atom.referenced_symbols@.len() - k,
    {
        let ghost before = needed@;
        let ghost symbol = symbols[k as int];
        let found = symbol_owner.get(atom.referenced_symbols[k].as_str());
        assert(lookup(symbol_owner.deep_view(), symbol) == owner(places, all, symbol));
        if let Some(owner_id) = found {
            assert(owner(places, all, symbol) == Some(owner_id@));
            if !same_text(owner_id.as_str(), own_id) {
                needed.insert(owner_id.clone());
            }
        }
        proof {
            assert forall|id: Seq<char>| #[trigger]
                needed@.contains(id) <==> tested.contains(id) || (id != own_id@ && exists|m: int|
                    0 <= m < k + 1 && owner(places, all, #[trigger] symbols[m]) == Some(id)) by {
                assert(before.contains(id) <==> tested.contains(id) || (id != own_id@ && exists|m: int|
                    0 <= m < k && owner(places, all, #[trigger] symbols[m]) == Some(id)));
                if exists|m: int|
                    0 <= m < k && owner(places, all, #[trigger] symbols[m]) == Some(id) {
                    let m = choose|m: int|
                        0 <= m < k && owner(places, all, #[trigger] symbols[m]) == Some(id);
                    assert(owner(places, all, symbols[m]) == Some(id));
                }
                if owner(places, all, symbol) == Some(id) {
                    assert(owner(places, all, symbols[k as int]) == Some(id));
                }
            }
        }
        k = k + 1;
    }
}

/// Collects the ids of all layers that a layer depends on.
fn all_dependencies(
    layer: &SemReviewLayer,
    owner_ids: &[String],
    symbol_owner: &StringMap<String>,
    atom_by_id: &StringMap<usize>,
    layers: &[SemReviewLayer],
    atoms: &[SemReviewAtom],
) -> (ids: Vec<String>)
    requires
        symbol_owner.wf(),
        atom_by_id.wf(),
        owner_ids.deep_view().to_set() == owners(layers.deep_view(), atoms.deep_view()),
        forall|symbol: Seq<char>| #[trigger]
            lookup(symbol_owner.deep_view(), symbol) == owner(
                layers.deep_view(),
                atoms.deep_view(),
                symbol,
            ),
        forall|id: Seq<char>| #[trigger]
            lookup(atom_by_id@, id) == last_atom(atoms.deep_view(), id),
    ensures
        ids.deep_view() == dependent(layers.deep_view(), atoms.deep_view())(
            layer.deep_view(),
        ).depends_on_layer_ids,
{
    let ghost places = layers.deep_view();
    let ghost all = atoms.deep_view();
    let ghost view = layer.deep_view();
    let ghost ids = view.atom_ids;
    let mut needed = StringSet::new();
    needed.insert_all(slice_of(&layer.depends_on_layer_ids));
    let ghost start = view.depends_on_layer_ids.to_set();
    assert(needed@ =~= start);
    let mut i: usize = 0;
    while i < layer.atom_ids.len()
        invariant
            i <= layer.atom_ids@.len(),
            places == layers.deep_view(),
            all == atoms.deep_view(),
            ids == layer.deep_view().atom_ids,
            symbol_owner.wf(),
            atom_by_id.wf(),
            owner_ids.deep_view().to_set() == owners(places, all),
            forall|symbol: Seq<char>| #[trigger]
                lookup(symbol_owner.deep_view(), symbol) == owner(places, all, symbol),
            forall|id: Seq<char>| #[trigger] lookup(atom_by_id@, id) == last_atom(all, id),
            needed.wf(),
            forall|id: Seq<char>| #[trigger]
                needed@.contains(id) <==> start.contains(id) || (id != layer.id@ && exists|m: int|
                    0 <= m < i && id_needs(places, all, #[trigger] ids[m], id)),
        decreases layer.atom_ids@.len() - i,
    {
        let ghost before = needed@;
        let ghost atom_id = ids[i as int];
        let found = atom_by_id.get(layer.atom_ids[i].as_str());
        assert(lookup(atom_by_id@, atom_id) == last_atom(all, atom_id));
        if let Some(at) = found {
            proof {
                assert(all.len() <= usize::MAX) by {
                    let count: usize = atoms.len();
                }
                lemma_last_atom(all, atom_id);
            }
            insert_needed(
                &mut needed,
                layer.id.as_str(),
                &atoms[*at],
                owner_ids,
                symbol_owner,
                layers,
                atoms,
            );
        }
        proof {
            assert forall|id: Seq<char>| #[trigger]
                needed@.contains(id) <==> start.contains(id) || (id != layer.id@ && exists|m: int|
                    0 <= m < i + 1 && id_needs(places, all, #[trigger] ids[m], id)) by {
                assert(before.contains(id) <==> start.contains(id) || (id != layer.id@ && exists|m: int|
                    0 <= m < i && id_needs(places, all, #[trigger] ids[m], id)));
                if exists|m: int| 0 <= m < i && id_needs(places, all, #[trigger] ids[m], id) {
                    let m = choose|m: int| 0 <= m < i && id_needs(places, all, #[trigger] ids[m], id);
                    assert(id_needs(places, all, ids[m], id));
                }
                if id_needs(places, all, atom_id, id) {
                    assert(id_needs(places, all, ids[i as int], id));
                }
            }
        }
        i = i + 1;
    }
    assert(needed@ =~= start.union(needed_by(places, all, layer.id@, ids)));
    needed.into_vec()
}

proof fn lemma_last_atom(atoms: Seq<AtomView>, id: Seq<char>)
    requires
        atoms.len() <= usize::MAX,
    ensures
        last_atom(atoms, id) matches Some(i) ==> i < atoms.len() && atoms[i as int].atom_id == id,
    decreases atoms.len(),
{
    if atoms.len() > 0 && atoms.last().atom_id != id {
        lemma_last_atom(atoms.drop_last(), id);
    }
}

/// Makes layers depend also on the layers that bring what their atoms refer to.
/// A layer with tests depends on all layers that bring symbols.
pub fn add_atom_layer_dependencies(layers: &mut Vec<SemReviewLayer>, atoms: &[SemReviewAtom])
    ensures
        final(layers).deep_view() == with_dependencies(old(layers).deep_view(), atoms.deep_view()),
{
    let ghost places = layers.deep_view();
    let ghost all = atoms.deep_view();
    let ghost wanted = with_dependencies(places, all);
    let symbol_owner = map_symbols_to_layers(slice_of(layers), atoms);
    let atom_by_id = map_ids_to_atoms(atoms);
    let owner_set = values_of(&symbol_owner);
    proof {
        assert forall|v: Seq<char>| owner_set@.contains(v) <==> owners(places, all).contains(v) by {
            if owner_set@.contains(v) {
                let k = choose|k: Seq<char>| #[trigger]
                    lookup(symbol_owner.deep_view(), k) == Some(v);
                assert(owner(places, all, k) == Some(v));
            }
            if owners(places, all).contains(v) {
                let k = choose|k: Seq<char>| #[trigger] owner(places, all, k) == Some(v);
                assert(lookup(symbol_owner.deep_view(), k) == Some(v));
            }
        }
        assert(owner_set@ =~= owners(places, all));
    }
    let owner_ids = owner_set.into_vec();
    let mut lists: Vec<Vec<String>> = Vec::new();
    let n: usize = layers.len();
    let mut i: usize = 0;
    while i < n
        invariant
            i <= n,
            n == layers@.len(),
            places == layers.deep_view(),
            all == atoms.deep_view(),
            wanted == with_dependencies(places, all),
            symbol_owner.wf(),
            atom_by_id.wf(),
            owner_ids.deep_view().to_set() == owners(places, all),
            forall|symbol: Seq<char>| #[trigger]
                lookup(symbol_owner.deep_view(), symbol) == owner(places, all, symbol),
            forall|id: Seq<char>| #[trigger] lookup(atom_by_id@, id) == last_atom(all, id),
            lists@.len() == i,
            forall|j: int|
                0 <= j < i ==> (#[trigger] lists@[j]).deep_view() == wanted[j].depends_on_layer_ids,
        decreases n - i,
    {
        assert(places[i as int] == layers@[i as int].deep_view());
        let list = all_dependencies(
            &layers[i],
            slice_of(&owner_ids),
            &symbol_owner,
            &atom_by_id,
            slice_of(layers),
            atoms,
        );
        lists.push(list);
        i = i + 1;
    }
    let mut at: usize = 0;
    for list in it: lists
        invariant
            it.seq() == lists@,
            at == it.index(),
            n == layers@.len(),
            n == places.len(),
            lists@.len() == n,
            wanted == with_dependencies(places, all),
            forall|j: int|
                0 <= j < n ==> (#[trigger] lists@[j]).deep_view() == wanted[j].depends_on_layer_ids,
            forall|j: int|
                0 <= j < n ==> #[trigger] layers.deep_view()[j] == (if j < at {
                    wanted[j]
                } else {
                    places[j]
                }),
    {
        let ghost before = layers.deep_view();
        assert(list == lists@[at as int]);
        assert(before[at as int] == places[at as int]);
        layers[at].depends_on_layer_ids = list;
        proof {
            assert(layers@[at as int].deep_view() == wanted[at as int]);
            assert forall|j: int| 0 <= j < n implies #[trigger] layers.deep_view()[j] == (if j < at
                + 1 {
                wanted[j]
            } else {
                places[j]
            }) by {
                if j != at {
                    assert(layers.deep_view()[j] == before[j]);
                }
            }
        }
        at = at + 1;
    }
    assert(layers.deep_view() =~= wanted);
}

// ---------------------------------------------------------------------------
// Laws

proof fn lemma_layer_of_atom(layers: Seq<LayerView>, id: Seq<char>)
    ensures
        layer_of_atom(layers, id) matches Some(layer_id) ==> exists|i: int|
            0 <= i < layers.len() && (#[trigger] layers[i]).id == layer_id
                && layers[i].atom_ids.contains(id),
        layer_of_atom(layers, id) is None ==> forall|i: int|
            0 <= i < layers.len() ==> !(#[trigger] layers[i]).atom_ids.contains(id),
    decreases layers.len(),
{
    if layers.len() > 0 {
        let front = layers.drop_last();
        lemma_layer_of_atom(front, id);
        if layers.last().atom_ids.contains(id) {
            assert(layers[layers.len() - 1] == layers.last());
        } else {
            match layer_of_atom(front, id) {
                Some(layer_id) => {
                    let i = choose|i: int|
                        0 <= i < front.len() && (#[trigger] front[i]).id == layer_id
                            && front[i].atom_ids.contains(id);
                    assert(layers[i] == front[i]);
                },
                None => {
                    assert forall|i: int| 0 <= i < layers.len() implies !(
                    #[trigger] layers[i]).atom_ids.contains(id) by {
                        if i < front.len() {
                            assert(front[i] == layers[i]);
                        }
                    }
                },
            }
        }
    }
}

/// The layer that brings a symbol is one of the layers, and holds an atom that
/// brings it.
pub proof fn law_owner_brings_the_symbol(
    layers: Seq<LayerView>,
    atoms: Seq<AtomView>,
    symbol: Seq<char>,
)
    ensures
        owner(layers, atoms, symbol) matches Some(layer_id) ==> exists|i: int, k: int|
            0 <= i < layers.len() && 0 <= k < atoms.len() && (#[trigger] layers[i]).id == layer_id
                && layers[i].atom_ids.contains((#[trigger] atoms[k]).atom_id) && offers(
                atoms[k],
                symbol,
            ),
{
    lemma_first_where_found(atoms, owns(layers, symbol));
    if let Some(atom) = first_where(atoms, owns(layers, symbol)) {
        lemma_layer_of_atom(layers, atom.atom_id);
        let k = choose|k: int| 0 <= k < atoms.len() && atoms[k] == atom;
        assert(atoms[k] == atom);
    }
}

/// The ids of the layers.
pub open spec fn ids_of(layers: Seq<LayerView>) -> Set<Seq<char>> {
    layers.map_values(|layer: LayerView| layer.id).to_set()
}

/// What atoms need are other layers, all of them among the layers there are.
pub proof fn law_needed_layers_exist(
    layers: Seq<LayerView>,
    atoms: Seq<AtomView>,
    own_id: Seq<char>,
    atom_ids: Seq<Seq<char>>,
)
    ensures
        needed_by(layers, atoms, own_id, atom_ids).subset_of(ids_of(layers).remove(own_id)),
        needed_by(layers, atoms, own_id, atom_ids).finite(),
{
    let ids = layers.map_values(|layer: LayerView| layer.id);
    let needed = needed_by(layers, atoms, own_id, atom_ids);
    assert forall|id: Seq<char>| #[trigger] needed.contains(id) implies ids_of(layers).remove(
        own_id,
    ).contains(id) by {
        let m = choose|m: int|
            0 <= m < atom_ids.len() && id_needs(layers, atoms, #[trigger] atom_ids[m], id);
        let atom = atoms[last_atom(atoms, atom_ids[m])->0 as int];
        let symbol = if refers_to(layers, atoms, atom, id) {
            let k = choose|k: int|
                0 <= k < atom.referenced_symbols.len() && owner(
                    layers,
                    atoms,
                    #[trigger] atom.referenced_symbols[k],
                ) == Some(id);
            atom.referenced_symbols[k]
        } else {
            choose|symbol: Seq<char>| #[trigger] owner(layers, atoms, symbol) == Some(id)
        };
        assert(owner(layers, atoms, symbol) == Some(id));
        law_owner_brings_the_symbol(layers, atoms, symbol);
        let (i, k) = choose|i: int, k: int|
            0 <= i < layers.len() && 0 <= k < atoms.len() && (#[trigger] layers[i]).id == id
                && layers[i].atom_ids.contains((#[trigger] atoms[k]).atom_id) && offers(
                atoms[k],
                symbol,
            );
        assert(ids[i] == id);
    }
    ids.lemma_cardinality_of_set();
    vstd::set_lib::lemma_len_subset(needed, ids_of(layers));
}

/// The layers that a layer depends on are those it depended on before and those
/// that its atoms need: in order, each once.
pub proof fn law_dependencies_are_in_order(layers: Seq<LayerView>, atoms: Seq<AtomView>, i: int)
    requires
        0 <= i < layers.len(),
    ensures
        ascending(with_dependencies(layers, atoms)[i].depends_on_layer_ids),
        with_dependencies(layers, atoms)[i].depends_on_layer_ids.to_set()
            == layers[i].depends_on_layer_ids.to_set().union(
            needed_by(layers, atoms, layers[i].id, layers[i].atom_ids),
        ),
{
    let layer = layers[i];
    law_needed_layers_exist(layers, atoms, layer.id, layer.atom_ids);
    layer.depends_on_layer_ids.lemma_cardinality_of_set();
    lemma_listed_exists(
        layer.depends_on_layer_ids.to_set().union(
            needed_by(layers, atoms, layer.id, layer.atom_ids),
        ),
    );
}

} // verus!
