//! What the layers of every review plan with atoms depend on.

use vstd::prelude::*;

use crate::atoms::{atom_layer_plan, layers_with_atoms};
use crate::dependencies::{
    id_needs, last_atom, law_dependencies_are_in_order, layer_of_atom, needed_by, needs, offers,
    owner, owners, owns, refers_to, with_dependencies,
};
use crate::layers::layer_plan;
use crate::role_laws::{is_said_to_be_test, lemma_said_to_be_test};
use crate::seqs::{first_where, lemma_first_where_at};
use crate::text::text_before;
use crate::types::{
    AnalysisView, AtomView, LayerView, OptionsView, SemLayerGenerationOptions,
};

verus! {

/// Whether an atom names or defines a symbol.
pub open spec fn names_or_defines(atom: AtomView, symbol: Seq<char>) -> bool {
    symbol.len() > 0 && (atom.symbol_name == Some(symbol) || exists|i: int|
        0 <= i < atom.defined_symbols.len() && #[trigger] atom.defined_symbols[i] == symbol)
}

/// Whether a layer holds an atom.
pub open spec fn holds_atom(layer: LayerView, id: Seq<char>) -> bool {
    exists|i: int| 0 <= i < layer.atom_ids.len() && #[trigger] layer.atom_ids[i] == id
}

/// Whether a layer is the last that holds an atom.
pub open spec fn is_last_with(layers: Seq<LayerView>, m: int, id: Seq<char>) -> bool {
    &&& 0 <= m < layers.len()
    &&& holds_atom(layers[m], id)
    &&& forall|j: int| m < j < layers.len() ==> !holds_atom(#[trigger] layers[j], id)
}

/// Whether some layer holds an atom.
pub open spec fn is_in_some_layer(layers: Seq<LayerView>, id: Seq<char>) -> bool {
    exists|j: int| 0 <= j < layers.len() && holds_atom(#[trigger] layers[j], id)
}

/// Whether a layer owns a symbol: it is the last that holds the first atom, of
/// those in layers, that names or defines the symbol.
pub open spec fn owns_symbol(
    layers: Seq<LayerView>,
    atoms: Seq<AtomView>,
    m: int,
    symbol: Seq<char>,
) -> bool {
    exists|k: int|
        {
            &&& 0 <= k < atoms.len()
            &&& is_last_with(layers, m, (#[trigger] atoms[k]).atom_id)
            &&& names_or_defines(atoms[k], symbol)
            &&& forall|j: int|
                0 <= j < k && is_in_some_layer(layers, (#[trigger] atoms[j]).atom_id)
                    ==> !names_or_defines(atoms[j], symbol)
        }
}

/// Whether an atom needs a layer: it refers to a symbol that the layer owns, or
/// is said to be a test and the layer owns a symbol at all.
pub open spec fn atom_needs(
    layers: Seq<LayerView>,
    atoms: Seq<AtomView>,
    atom: AtomView,
    m: int,
) -> bool {
    ||| exists|k: int|
        0 <= k < atom.referenced_symbols.len() && owns_symbol(
            layers,
            atoms,
            m,
            #[trigger] atom.referenced_symbols[k],
        )
    ||| is_said_to_be_test(atom) && exists|symbol: Seq<char>| #[trigger]
        owns_symbol(layers, atoms, m, symbol)
}

/// Whether a layer needs another for an atom in it: for the last of the atoms
/// with its id.
pub open spec fn layer_needs(
    layers: Seq<LayerView>,
    atoms: Seq<AtomView>,
    i: int,
    m: int,
) -> bool {
    exists|x: int|
        {
            &&& 0 <= x < atoms.len()
            &&& holds_atom(layers[i], (#[trigger] atoms[x]).atom_id)
            &&& forall|y: int|
                x < y < atoms.len() ==> (#[trigger] atoms[y]).atom_id != atoms[x].atom_id
            &&& atom_needs(layers, atoms, atoms[x], m)
        }
}

proof fn lemma_offers(atom: AtomView, symbol: Seq<char>)
    ensures
        names_or_defines(atom, symbol) == offers(atom, symbol),
{
    if atom.defined_symbols.contains(symbol) {
        let i = choose|i: int|
            0 <= i < atom.defined_symbols.len() && atom.defined_symbols[i] == symbol;
        assert(atom.defined_symbols[i] == symbol);
    }
}

proof fn lemma_holds(layer: LayerView, id: Seq<char>)
    ensures
        holds_atom(layer, id) == layer.atom_ids.contains(id),
{
    if layer.atom_ids.contains(id) {
        let i = choose|i: int| 0 <= i < layer.atom_ids.len() && layer.atom_ids[i] == id;
        assert(layer.atom_ids[i] == id);
    }
}

proof fn lemma_last_with(layers: Seq<LayerView>, id: Seq<char>)
    ensures
        forall|m: int| #[trigger]
            is_last_with(layers, m, id) ==> layer_of_atom(layers, id) == Some(layers[m].id),
        layer_of_atom(layers, id) is Some <==> is_in_some_layer(layers, id),
        layer_of_atom(layers, id) is Some ==> exists|m: int| #[trigger]
            is_last_with(layers, m, id),
    decreases layers.len(),
{
    if layers.len() > 0 {
        let n = layers.len() - 1;
        let front = layers.drop_last();
        lemma_holds(layers[n], id);
        lemma_last_with(front, id);
        if holds_atom(layers[n], id) {
            assert(is_last_with(layers, n, id));
            assert forall|m: int| #[trigger] is_last_with(layers, m, id) implies layer_of_atom(
                layers,
                id,
            ) == Some(layers[m].id) by {
                if m < n {
                    assert(!holds_atom(layers[n], id));
                }
            }
        } else {
            assert forall|m: int| #[trigger] is_last_with(layers, m, id) implies layer_of_atom(
                layers,
                id,
            ) == Some(layers[m].id) by {
                assert forall|j: int| m < j < front.len() implies !holds_atom(
                    #[trigger] front[j],
                    id,
                ) by {
                    assert(!holds_atom(layers[j], id));
                }
                assert(m < n);
                assert(is_last_with(front, m, id));
            }
            if layer_of_atom(layers, id) is Some {
                let m = choose|m: int| #[trigger] is_last_with(front, m, id);
                assert forall|j: int| m < j < layers.len() implies !holds_atom(
                    #[trigger] layers[j],
                    id,
                ) by {
                    if j < n {
                        assert(!holds_atom(front[j], id));
                    }
                }
                assert(holds_atom(layers[m], id));
                assert(is_last_with(layers, m, id));
            }
            if is_in_some_layer(layers, id) {
                let j = choose|j: int|
                    0 <= j < layers.len() && holds_atom(#[trigger] layers[j], id);
                assert(holds_atom(front[j], id));
            }
            if is_in_some_layer(front, id) {
                let j = choose|j: int| 0 <= j < front.len() && holds_atom(#[trigger] front[j], id);
                assert(holds_atom(layers[j], id));
            }
        }
    }
}

proof fn lemma_owner(layers: Seq<LayerView>, atoms: Seq<AtomView>, symbol: Seq<char>)
    ensures
        forall|m: int| #[trigger]
            owns_symbol(layers, atoms, m, symbol) ==> owner(layers, atoms, symbol) == Some(
                layers[m].id,
            ),
        owner(layers, atoms, symbol) matches Some(id) ==> exists|m: int| #[trigger]
            owns_symbol(layers, atoms, m, symbol) && layers[m].id == id,
{
    let wanted = owns(layers, symbol);
    assert forall|m: int| #[trigger] owns_symbol(layers, atoms, m, symbol) implies owner(
        layers,
        atoms,
        symbol,
    ) == Some(layers[m].id) by {
        let k = choose|k: int|
            {
                &&& 0 <= k < atoms.len()
                &&& is_last_with(layers, m, (#[trigger] atoms[k]).atom_id)
                &&& names_or_defines(atoms[k], symbol)
                &&& forall|j: int|
                    0 <= j < k && is_in_some_layer(layers, (#[trigger] atoms[j]).atom_id)
                        ==> !names_or_defines(atoms[j], symbol)
            };
        lemma_last_with(layers, atoms[k].atom_id);
        lemma_offers(atoms[k], symbol);
        assert forall|j: int| 0 <= j < k implies !wanted(#[trigger] atoms[j]) by {
            lemma_last_with(layers, atoms[j].atom_id);
            lemma_offers(atoms[j], symbol);
        }
        lemma_first_where_at(atoms, wanted, k);
    }
    if owner(layers, atoms, symbol) is Some {
        let k = lemma_first_position(atoms, wanted);
        lemma_last_with(layers, atoms[k].atom_id);
        lemma_offers(atoms[k], symbol);
        let m = choose|m: int| #[trigger] is_last_with(layers, m, atoms[k].atom_id);
        assert forall|j: int|
            0 <= j < k && is_in_some_layer(
                layers,
                (#[trigger] atoms[j]).atom_id,
            ) implies !names_or_defines(atoms[j], symbol) by {
            assert(!wanted(atoms[j]));
            lemma_last_with(layers, atoms[j].atom_id);
            lemma_offers(atoms[j], symbol);
        }
        assert(owns_symbol(layers, atoms, m, symbol));
    }
}

proof fn lemma_first_position<T>(s: Seq<T>, wanted: spec_fn(T) -> bool) -> (k: int)
    requires
        first_where(s, wanted) is Some,
    ensures
        0 <= k < s.len(),
        wanted(s[k]),
        first_where(s, wanted) == Some(s[k]),
        forall|j: int| 0 <= j < k ==> !wanted(#[trigger] s[j]),
    decreases s.len(),
{
    if wanted(s[0]) {
        0
    } else {
        let rest = s.drop_first();
        let k = lemma_first_position(rest, wanted);
        assert forall|j: int| 0 <= j < k + 1 implies !wanted(#[trigger] s[j]) by {
            if j > 0 {
                assert(rest[j - 1] == s[j]);
            }
        }
        k + 1
    }
}

proof fn lemma_needs(layers: Seq<LayerView>, atoms: Seq<AtomView>, atom: AtomView, id: Seq<char>)
    ensures
        needs(layers, atoms, atom, id) <==> exists|m: int|
            (#[trigger] layers[m]).id == id && atom_needs(layers, atoms, atom, m),
{
    lemma_said_to_be_test(atom);
    if needs(layers, atoms, atom, id) {
        if refers_to(layers, atoms, atom, id) {
            let k = choose|k: int|
                0 <= k < atom.referenced_symbols.len() && owner(
                    layers,
                    atoms,
                    #[trigger] atom.referenced_symbols[k],
                ) == Some(id);
            lemma_owner(layers, atoms, atom.referenced_symbols[k]);
            let m = choose|m: int| #[trigger]
                owns_symbol(layers, atoms, m, atom.referenced_symbols[k]) && layers[m].id == id;
            assert(layers[m].id == id && atom_needs(layers, atoms, atom, m));
        } else {
            let symbol = choose|symbol: Seq<char>| #[trigger]
                owner(layers, atoms, symbol) == Some(id);
            lemma_owner(layers, atoms, symbol);
            let m = choose|m: int| #[trigger]
                owns_symbol(layers, atoms, m, symbol) && layers[m].id == id;
            assert(layers[m].id == id && atom_needs(layers, atoms, atom, m));
        }
    }
    if exists|m: int| (#[trigger] layers[m]).id == id && atom_needs(layers, atoms, atom, m) {
        let m = choose|m: int|
            (#[trigger] layers[m]).id == id && atom_needs(layers, atoms, atom, m);
        if exists|k: int|
            0 <= k < atom.referenced_symbols.len() && owns_symbol(
                layers,
                atoms,
                m,
                #[trigger] atom.referenced_symbols[k],
            ) {
            let k = choose|k: int|
                0 <= k < atom.referenced_symbols.len() && owns_symbol(
                    layers,
                    atoms,
                    m,
                    #[trigger] atom.referenced_symbols[k],
                );
            lemma_owner(layers, atoms, atom.referenced_symbols[k]);
            assert(refers_to(layers, atoms, atom, id));
        } else {
            let symbol = choose|symbol: Seq<char>| #[trigger]
                owns_symbol(layers, atoms, m, symbol);
            lemma_owner(layers, atoms, symbol);
            assert(owners(layers, atoms).contains(id));
        }
    }
}

proof fn lemma_last_atom(atoms: Seq<AtomView>, id: Seq<char>)
    requires
        atoms.len() <= usize::MAX,
    ensures
        match last_atom(atoms, id) {
            Some(x) => {
                &&& x < atoms.len()
                &&& atoms[x as int].atom_id == id
                &&& forall|y: int| x < y < atoms.len() ==> (#[trigger] atoms[y]).atom_id != id
            },
            None => forall|y: int| 0 <= y < atoms.len() ==> (#[trigger] atoms[y]).atom_id != id,
        },
    decreases atoms.len(),
{
    if atoms.len() > 0 && atoms.last().atom_id != id {
        let front = atoms.drop_last();
        lemma_last_atom(front, id);
        assert forall|y: int|
            0 <= y < atoms.len() && (last_atom(front, id) matches Some(x) ==> x
                < y) implies (#[trigger] atoms[y]).atom_id != id by {
            if y < front.len() {
                assert(front[y] == atoms[y]);
            }
        }
    }
}

/// A layer depends on those that it depended on without atoms, and on every
/// other layer that it needs for one of its atoms: one that owns a symbol, no
/// matter which, that the atom refers to or, for a test, any symbol. It depends
/// on no other, and lists them in order, each once.
pub proof fn law_layers_depend_on_what_their_atoms_need<H: Fn(&str) -> String>(
    hash: H,
    analysis: AnalysisView,
    atoms: Seq<AtomView>,
    layer_options: SemLayerGenerationOptions,
    options: OptionsView,
    i: int,
)
    requires
        atoms.len() <= usize::MAX,
        0 <= i < atom_layer_plan(hash, analysis, atoms, layer_options, options).layers.len(),
    ensures
        ({
            let layers = atom_layer_plan(hash, analysis, atoms, layer_options, options).layers;
            let without = layer_plan(hash, analysis, layer_options, options).layers;
            &&& forall|id: Seq<char>| #[trigger]
                layers[i].depends_on_layer_ids.contains(id) <==> {
                    ||| i < without.len() && without[i].depends_on_layer_ids.contains(id)
                    ||| id != layers[i].id && exists|m: int|
                        (#[trigger] layers[m]).id == id && layer_needs(layers, atoms, i, m)
                }
            &&& forall|a: int, b: int|
                0 <= a < b < layers[i].depends_on_layer_ids.len() ==> text_before(
                    #[trigger] layers[i].depends_on_layer_ids[a],
                    #[trigger] layers[i].depends_on_layer_ids[b],
                )
        }),
{
    let layers = atom_layer_plan(hash, analysis, atoms, layer_options, options).layers;
    let without = layer_plan(hash, analysis, layer_options, options).layers;
    let held = layers_with_atoms(hash, without, analysis.changes, atoms, layer_options);
    assert(layers == with_dependencies(held, atoms));
    law_dependencies_are_in_order(held, atoms, i);
    if i >= without.len() {
        assert(held[i].depends_on_layer_ids =~= Seq::empty());
    }
    assert forall|id: Seq<char>| #[trigger] layers[i].depends_on_layer_ids.contains(id) <==> {
        ||| i < without.len() && without[i].depends_on_layer_ids.contains(id)
        ||| id != layers[i].id && exists|m: int|
            (#[trigger] layers[m]).id == id && layer_needs(layers, atoms, i, m)
    } by {
        let depends = layers[i].depends_on_layer_ids;
        let needed = needed_by(held, atoms, held[i].id, held[i].atom_ids);
        assert(depends.contains(id) <==> depends.to_set().contains(id));
        assert(held[i].depends_on_layer_ids.contains(id)
            <==> held[i].depends_on_layer_ids.to_set().contains(id));
        if i < without.len() {
            assert(held[i].depends_on_layer_ids == without[i].depends_on_layer_ids);
        }
        lemma_needed(held, atoms, i, id);
        lemma_needs_survive(held, layers, atoms, i, id);
    }
}

proof fn lemma_needed(layers: Seq<LayerView>, atoms: Seq<AtomView>, i: int, id: Seq<char>)
    requires
        atoms.len() <= usize::MAX,
        0 <= i < layers.len(),
    ensures
        needed_by(layers, atoms, layers[i].id, layers[i].atom_ids).contains(id) <==> id
            != layers[i].id && exists|m: int|
            (#[trigger] layers[m]).id == id && layer_needs(layers, atoms, i, m),
{
    let ids = layers[i].atom_ids;
    let needed = needed_by(layers, atoms, layers[i].id, ids);
    if needed.contains(id) {
        let p = choose|p: int|
            0 <= p < ids.len() && id_needs(layers, atoms, #[trigger] ids[p], id);
        lemma_last_atom(atoms, ids[p]);
        let x = last_atom(atoms, ids[p])->0 as int;
        lemma_needs(layers, atoms, atoms[x], id);
        let m = choose|m: int|
            (#[trigger] layers[m]).id == id && atom_needs(layers, atoms, atoms[x], m);
        assert(holds_atom(layers[i], atoms[x].atom_id));
        assert(layer_needs(layers, atoms, i, m));
    }
    if id != layers[i].id && exists|m: int|
        (#[trigger] layers[m]).id == id && layer_needs(layers, atoms, i, m) {
        let m = choose|m: int|
            (#[trigger] layers[m]).id == id && layer_needs(layers, atoms, i, m);
        let x = choose|x: int|
            {
                &&& 0 <= x < atoms.len()
                &&& holds_atom(layers[i], (#[trigger] atoms[x]).atom_id)
                &&& forall|y: int|
                    x < y < atoms.len() ==> (#[trigger] atoms[y]).atom_id != atoms[x].atom_id
                &&& atom_needs(layers, atoms, atoms[x], m)
            };
        let own = atoms[x].atom_id;
        lemma_last_atom(atoms, own);
        assert(last_atom(atoms, own) == Some(x as usize));
        lemma_needs(layers, atoms, atoms[x], id);
        let p = choose|p: int| 0 <= p < ids.len() && #[trigger] ids[p] == own;
        assert(id_needs(layers, atoms, ids[p], id));
    }
}

/// What layers need depends on nothing but their ids and their atoms.
proof fn lemma_needs_survive(
    held: Seq<LayerView>,
    layers: Seq<LayerView>,
    atoms: Seq<AtomView>,
    i: int,
    id: Seq<char>,
)
    requires
        layers == with_dependencies(held, atoms),
        0 <= i < held.len(),
    ensures
        (exists|m: int| (#[trigger] held[m]).id == id && layer_needs(held, atoms, i, m)) <==> (
        exists|m: int| (#[trigger] layers[m]).id == id && layer_needs(layers, atoms, i, m)),
        layers[i].id == held[i].id,
{
    assert forall|j: int, id: Seq<char>| 0 <= j < held.len() implies holds_atom(held[j], id)
        == #[trigger] holds_atom(layers[j], id) by {
        assert(layers[j].atom_ids == held[j].atom_ids);
    }
    assert forall|m: int, id: Seq<char>| is_last_with(held, m, id) == #[trigger] is_last_with(
        layers,
        m,
        id,
    ) by {
        if 0 <= m < held.len() {
            assert(holds_atom(held[m], id) == holds_atom(layers[m], id));
            if is_last_with(held, m, id) {
                assert forall|j: int| m < j < layers.len() implies !holds_atom(
                    #[trigger] layers[j],
                    id,
                ) by {
                    assert(!holds_atom(held[j], id));
                }
            }
            if is_last_with(layers, m, id) {
                assert forall|j: int| m < j < held.len() implies !holds_atom(
                    #[trigger] held[j],
                    id,
                ) by {
                    assert(!holds_atom(layers[j], id));
                }
            }
        }
    }
    assert forall|id: Seq<char>| is_in_some_layer(held, id) == #[trigger] is_in_some_layer(
        layers,
        id,
    ) by {
        if is_in_some_layer(held, id) {
            let j = choose|j: int| 0 <= j < held.len() && holds_atom(#[trigger] held[j], id);
            assert(holds_atom(layers[j], id));
        }
        if is_in_some_layer(layers, id) {
            let j = choose|j: int| 0 <= j < layers.len() && holds_atom(#[trigger] layers[j], id);
            assert(holds_atom(held[j], id));
        }
    }
    assert forall|m: int, symbol: Seq<char>| owns_symbol(held, atoms, m, symbol)
        == #[trigger] owns_symbol(layers, atoms, m, symbol) by {
        lemma_owns_survives(held, layers, atoms, m, symbol);
        lemma_owns_survives(layers, held, atoms, m, symbol);
    }
    assert forall|m: int, atom: AtomView| atom_needs(held, atoms, atom, m) == #[trigger] atom_needs(
        layers,
        atoms,
        atom,
        m,
    ) by {
        lemma_atom_needs_survives(held, layers, atoms, atom, m);
        lemma_atom_needs_survives(layers, held, atoms, atom, m);
    }
    assert forall|m: int| layer_needs(held, atoms, i, m) == #[trigger] layer_needs(
        layers,
        atoms,
        i,
        m,
    ) by {
        lemma_layer_needs_survives(held, layers, atoms, i, m);
        lemma_layer_needs_survives(layers, held, atoms, i, m);
    }
    assert forall|m: int| 0 <= m < held.len() implies (#[trigger] layers[m]).id == held[m].id by {}
    if exists|m: int| (#[trigger] held[m]).id == id && layer_needs(held, atoms, i, m) {
        let m = choose|m: int| (#[trigger] held[m]).id == id && layer_needs(held, atoms, i, m);
        lemma_needed_is_a_layer(held, atoms, i, m);
        assert(layer_needs(layers, atoms, i, m));
        assert(layers[m].id == id);
    }
    if exists|m: int| (#[trigger] layers[m]).id == id && layer_needs(layers, atoms, i, m) {
        let m = choose|m: int| (#[trigger] layers[m]).id == id && layer_needs(layers, atoms, i, m);
        lemma_needed_is_a_layer(layers, atoms, i, m);
        assert(layer_needs(held, atoms, i, m));
        assert(held[m].id == id);
    }
}

proof fn lemma_needed_is_a_layer(layers: Seq<LayerView>, atoms: Seq<AtomView>, i: int, m: int)
    requires
        layer_needs(layers, atoms, i, m),
    ensures
        0 <= m < layers.len(),
{
    let x = choose|x: int|
        {
            &&& 0 <= x < atoms.len()
            &&& holds_atom(layers[i], (#[trigger] atoms[x]).atom_id)
            &&& forall|y: int|
                x < y < atoms.len() ==> (#[trigger] atoms[y]).atom_id != atoms[x].atom_id
            &&& atom_needs(layers, atoms, atoms[x], m)
        };
    assert(exists|symbol: Seq<char>| #[trigger] owns_symbol(layers, atoms, m, symbol));
    let symbol = choose|symbol: Seq<char>| #[trigger] owns_symbol(layers, atoms, m, symbol);
}

proof fn lemma_owns_survives(
    a: Seq<LayerView>,
    b: Seq<LayerView>,
    atoms: Seq<AtomView>,
    m: int,
    symbol: Seq<char>,
)
    requires
        forall|m: int, id: Seq<char>| is_last_with(a, m, id) == #[trigger] is_last_with(b, m, id),
        forall|id: Seq<char>| is_in_some_layer(a, id) == #[trigger] is_in_some_layer(b, id),
    ensures
        owns_symbol(a, atoms, m, symbol) ==> owns_symbol(b, atoms, m, symbol),
{
    if owns_symbol(a, atoms, m, symbol) {
        let k = choose|k: int|
            {
                &&& 0 <= k < atoms.len()
                &&& is_last_with(a, m, (#[trigger] atoms[k]).atom_id)
                &&& names_or_defines(atoms[k], symbol)
                &&& forall|j: int|
                    0 <= j < k && is_in_some_layer(a, (#[trigger] atoms[j]).atom_id)
                        ==> !names_or_defines(atoms[j], symbol)
            };
        assert(is_last_with(b, m, atoms[k].atom_id));
        assert forall|j: int|
            0 <= j < k && is_in_some_layer(
                b,
                (#[trigger] atoms[j]).atom_id,
            ) implies !names_or_defines(atoms[j], symbol) by {
            assert(is_in_some_layer(a, atoms[j].atom_id));
        }
    }
}

proof fn lemma_atom_needs_survives(
    a: Seq<LayerView>,
    b: Seq<LayerView>,
    atoms: Seq<AtomView>,
    atom: AtomView,
    m: int,
)
    requires
        forall|m: int, symbol: Seq<char>|
            owns_symbol(a, atoms, m, symbol) == #[trigger] owns_symbol(b, atoms, m, symbol),
    ensures
        atom_needs(a, atoms, atom, m) ==> atom_needs(b, atoms, atom, m),
{
    if atom_needs(a, atoms, atom, m) {
        if exists|k: int|
            0 <= k < atom.referenced_symbols.len() && owns_symbol(
                a,
                atoms,
                m,
                #[trigger] atom.referenced_symbols[k],
            ) {
            let k = choose|k: int|
                0 <= k < atom.referenced_symbols.len() && owns_symbol(
                    a,
                    atoms,
                    m,
                    #[trigger] atom.referenced_symbols[k],
                );
            assert(owns_symbol(b, atoms, m, atom.referenced_symbols[k]));
        } else {
            let symbol = choose|symbol: Seq<char>| #[trigger] owns_symbol(a, atoms, m, symbol);
            assert(owns_symbol(b, atoms, m, symbol));
        }
    }
}

proof fn lemma_layer_needs_survives(
    a: Seq<LayerView>,
    b: Seq<LayerView>,
    atoms: Seq<AtomView>,
    i: int,
    m: int,
)
    requires
        forall|id: Seq<char>| holds_atom(a[i], id) == #[trigger] holds_atom(b[i], id),
        forall|m: int, atom: AtomView|
            atom_needs(a, atoms, atom, m) == #[trigger] atom_needs(b, atoms, atom, m),
    ensures
        layer_needs(a, atoms, i, m) ==> layer_needs(b, atoms, i, m),
{
    if layer_needs(a, atoms, i, m) {
        let x = choose|x: int|
            {
                &&& 0 <= x < atoms.len()
                &&& holds_atom(a[i], (#[trigger] atoms[x]).atom_id)
                &&& forall|y: int|
                    x < y < atoms.len() ==> (#[trigger] atoms[y]).atom_id != atoms[x].atom_id
                &&& atom_needs(a, atoms, atoms[x], m)
            };
        assert(holds_atom(b[i], atoms[x].atom_id));
        assert(atom_needs(b, atoms, atoms[x], m));
    }
}

/// A layer that holds an atom depends on the layer of each symbol that the atom
/// refers to, be it the first or the last of them, unless it is that layer
/// itself.
pub proof fn law_every_referenced_symbol_counts<H: Fn(&str) -> String>(
    hash: H,
    analysis: AnalysisView,
    atoms: Seq<AtomView>,
    layer_options: SemLayerGenerationOptions,
    options: OptionsView,
    i: int,
    m: int,
    x: int,
    k: int,
    n: int,
)
    requires
        atoms.len() <= usize::MAX,
        ({
            let layers = atom_layer_plan(hash, analysis, atoms, layer_options, options).layers;
            &&& 0 <= i < layers.len()
            &&& 0 <= x < atoms.len()
            &&& holds_atom(layers[i], atoms[x].atom_id)
            &&& forall|y: int|
                x < y < atoms.len() ==> (#[trigger] atoms[y]).atom_id != atoms[x].atom_id
            &&& 0 <= k < atoms[x].referenced_symbols.len()
            &&& 0 <= n < atoms.len()
            &&& is_last_with(layers, m, atoms[n].atom_id)
            &&& names_or_defines(atoms[n], atoms[x].referenced_symbols[k])
            &&& forall|j: int|
                0 <= j < n && is_in_some_layer(layers, (#[trigger] atoms[j]).atom_id)
                    ==> !names_or_defines(atoms[j], atoms[x].referenced_symbols[k])
            &&& layers[m].id != layers[i].id
        }),
    ensures
        ({
            let layers = atom_layer_plan(hash, analysis, atoms, layer_options, options).layers;
            layers[i].depends_on_layer_ids.contains(layers[m].id)
        }),
{
    let layers = atom_layer_plan(hash, analysis, atoms, layer_options, options).layers;
    law_layers_depend_on_what_their_atoms_need(
        hash,
        analysis,
        atoms,
        layer_options,
        options,
        i,
    );
    assert(owns_symbol(layers, atoms, m, atoms[x].referenced_symbols[k])) by {
        assert(is_last_with(layers, m, atoms[n].atom_id));
    }
    assert(atom_needs(layers, atoms, atoms[x], m));
    assert(layer_needs(layers, atoms, i, m));
}

} // verus!
