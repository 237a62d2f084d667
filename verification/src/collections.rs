//! Sets of texts and maps from texts, kept in the order of their texts.

use vstd::prelude::*;

use crate::seqs::slice_of;
use crate::text::{
    compare_texts, lemma_text_before_asymmetric, lemma_text_before_irreflexive,
    lemma_text_before_total, lemma_text_before_transitive, text_before, Rank,
};

verus! {

/// Whether each text stands before all that follow it.
pub open spec fn ascending(texts: Seq<Seq<char>>) -> bool {
    forall|i: int, j: int|
        0 <= i < j < texts.len() ==> text_before(#[trigger] texts[i], #[trigger] texts[j])
}

/// The texts of a finite set in order, each once.
pub open spec fn listed(texts: Set<Seq<char>>) -> Seq<Seq<char>> {
    choose|list: Seq<Seq<char>>| ascending(list) && #[trigger] list.to_set() == texts
}

/// Two ascending lists of the same texts are the same list.
pub proof fn lemma_ascending_unique(a: Seq<Seq<char>>, b: Seq<Seq<char>>)
    requires
        ascending(a),
        ascending(b),
        a.to_set() == b.to_set(),
    ensures
        a == b,
    decreases a.len(),
{
    assert forall|x: Seq<char>| a.contains(x) <==> b.contains(x) by {
        assert(a.contains(x) <==> a.to_set().contains(x));
        assert(b.contains(x) <==> b.to_set().contains(x));
    }
    if a.len() == 0 || b.len() == 0 {
        if a.len() > 0 {
            assert(a.contains(a[0]));
        }
        if b.len() > 0 {
            assert(b.contains(b[0]));
        }
        assert(a =~= b);
    } else {
        let x = a.last();
        let y = b.last();
        assert(a.contains(x) && b.contains(y));
        assert(b.contains(x) && a.contains(y));
        let i = choose|i: int| 0 <= i < b.len() && b[i] == x;
        let j = choose|j: int| 0 <= j < a.len() && a[j] == y;
        if x != y {
            assert(text_before(b[i], b[b.len() - 1]));
            assert(text_before(a[j], a[a.len() - 1]));
            lemma_text_before_asymmetric(x, y);
        }
        let c = a.drop_last();
        let d = b.drop_last();
        assert forall|z: Seq<char>| c.to_set().contains(z) <==> d.to_set().contains(z) by {
            if c.contains(z) {
                let k = choose|k: int| 0 <= k < c.len() && c[k] == z;
                assert(a[k] == z);
                lemma_text_before_asymmetric(a[k], a[a.len() - 1]);
                assert(a.contains(z));
                let m = choose|m: int| 0 <= m < b.len() && b[m] == z;
                assert(d[m] == z);
            }
            if d.contains(z) {
                let k = choose|k: int| 0 <= k < d.len() && d[k] == z;
                assert(b[k] == z);
                lemma_text_before_asymmetric(b[k], b[b.len() - 1]);
                assert(b.contains(z));
                let m = choose|m: int| 0 <= m < a.len() && a[m] == z;
                assert(c[m] == z);
            }
        }
        assert(c.to_set() =~= d.to_set());
        lemma_ascending_unique(c, d);
        assert(a =~= c.push(x));
        assert(b =~= d.push(y));
    }
}

/// An ascending list is what its set of texts is listed as.
pub proof fn lemma_listed(list: Seq<Seq<char>>)
    requires
        ascending(list),
    ensures
        listed(list.to_set()) == list,
        list.no_duplicates(),
        list.to_set().finite(),
        list.to_set().len() == list.len(),
{
    let other = listed(list.to_set());
    assert(ascending(other) && other.to_set() == list.to_set());
    lemma_ascending_unique(other, list);
    assert forall|i: int, j: int| 0 <= i < list.len() && 0 <= j < list.len() && i != j implies list[i]
        != list[j] by {
        if i < j {
            lemma_text_before_asymmetric(list[i], list[j]);
        } else {
            lemma_text_before_asymmetric(list[j], list[i]);
        }
    }
    list.unique_seq_to_set();
    list.lemma_cardinality_of_set();
}

/// Every finite set of texts has a list: ascending, with just its texts.
pub proof fn lemma_listed_exists(texts: Set<Seq<char>>)
    requires
        texts.finite(),
    ensures
        ascending(listed(texts)),
        listed(texts).to_set() == texts,
        listed(texts).len() == texts.len(),
    decreases texts.len(),
{
    if texts.len() == 0 {
        let list = Seq::<Seq<char>>::empty();
        assert(list.to_set() =~= texts);
        lemma_listed(list);
    } else {
        let x = texts.choose();
        let rest = texts.remove(x);
        lemma_listed_exists(rest);
        let list = listed(rest);
        assert(!list.contains(x)) by {
            if list.contains(x) {
                assert(list.to_set().contains(x));
            }
        }
        let at = lemma_place_exists(list, x);
        lemma_inserted(list, x, at);
        assert(rest.insert(x) =~= texts);
        lemma_listed(list.insert(at, x));
    }
}

/// There is a place in an ascending list for a text that it lacks.
proof fn lemma_place_exists(list: Seq<Seq<char>>, x: Seq<char>) -> (at: int)
    requires
        ascending(list),
        !list.contains(x),
    ensures
        0 <= at <= list.len(),
        forall|i: int| 0 <= i < at ==> text_before(#[trigger] list[i], x),
        forall|i: int| at <= i < list.len() ==> text_before(x, #[trigger] list[i]),
    decreases list.len(),
{
    if list.len() == 0 {
        0
    } else {
        let front = list.drop_last();
        let last = list.last();
        assert(list.contains(last));
        lemma_text_before_total(x, last);
        if text_before(last, x) {
            assert forall|i: int| 0 <= i < list.len() implies text_before(#[trigger] list[i], x) by {
                if i < list.len() - 1 {
                    lemma_text_before_transitive(list[i], list[list.len() - 1], x);
                }
            }
            list.len() as int
        } else {
            assert(!front.contains(x)) by {
                if front.contains(x) {
                    let k = choose|k: int| 0 <= k < front.len() && front[k] == x;
                    assert(list[k] == x);
                }
            }
            let at = lemma_place_exists(front, x);
            assert forall|i: int| 0 <= i < at implies text_before(#[trigger] list[i], x) by {
                assert(front[i] == list[i]);
            }
            assert forall|i: int| at <= i < list.len() implies text_before(x, #[trigger] list[i]) by {
                if i < list.len() - 1 {
                    assert(front[i] == list[i]);
                }
            }
            at
        }
    }
}

/// A text put in its place keeps a list ascending and joins its set.
proof fn lemma_inserted(list: Seq<Seq<char>>, x: Seq<char>, at: int)
    requires
        ascending(list),
        0 <= at <= list.len(),
        forall|i: int| 0 <= i < at ==> text_before(#[trigger] list[i], x),
        forall|i: int| at <= i < list.len() ==> text_before(x, #[trigger] list[i]),
    ensures
        ascending(list.insert(at, x)),
        list.insert(at, x).to_set() == list.to_set().insert(x),
{
    let longer = list.insert(at, x);
    assert forall|i: int, j: int| 0 <= i < j < longer.len() implies text_before(
        #[trigger] longer[i],
        #[trigger] longer[j],
    ) by {
        if i < at {
            assert(longer[i] == list[i]);
        } else if i > at {
            assert(longer[i] == list[i - 1]);
        }
        if j < at {
            assert(longer[j] == list[j]);
        } else if j > at {
            assert(longer[j] == list[j - 1]);
        }
    }
    assert forall|z: Seq<char>| longer.to_set().contains(z) <==> list.to_set().insert(x).contains(z) by {
        if longer.contains(z) {
            let k = choose|k: int| 0 <= k < longer.len() && longer[k] == z;
            if k < at {
                assert(list[k] == z);
            } else if k > at {
                assert(list[k - 1] == z);
            }
        }
        if list.contains(z) {
            let k = choose|k: int| 0 <= k < list.len() && list[k] == z;
            if k < at {
                assert(longer[k] == z);
            } else {
                assert(longer[k + 1] == z);
            }
        }
        assert(longer[at] == x);
    }
    assert(longer.to_set() =~= list.to_set().insert(x));
}

/// Where a text stands in an ascending list, or where it would stand.
fn place_of(list: &Vec<String>, text: &str) -> (place: (bool, usize))
    requires
        ascending(list.deep_view()),
    ensures
        place.0 == list.deep_view().contains(text@),
        place.1 <= list@.len(),
        place.0 ==> place.1 < list@.len() && list@[place.1 as int]@ == text@,
        forall|i: int| 0 <= i < place.1 ==> text_before(#[trigger] list.deep_view()[i], text@),
        !place.0 ==> forall|i: int|
            place.1 <= i < list@.len() ==> text_before(text@, #[trigger] list.deep_view()[i]),
{
    let ghost all = list.deep_view();
    let mut low: usize = 0;
    let mut high: usize = list.len();
    while low < high
        invariant
            all == list.deep_view(),
            ascending(all),
            low <= high <= list@.len(),
            forall|i: int| 0 <= i < low ==> text_before(#[trigger] all[i], text@),
            forall|i: int| high <= i < list@.len() ==> text_before(text@, #[trigger] all[i]),
        decreases high - low,
    {
        let middle: usize = low + (high - low) / 2;
        let ghost pivot = all[middle as int];
        match compare_texts(list[middle].as_str(), text) {
            Rank::Equal => {
                assert(all[middle as int] == text@);
                assert forall|i: int| 0 <= i < middle implies text_before(#[trigger] all[i], text@) by {
                    assert(text_before(all[i], all[middle as int]));
                }
                return (true, middle);
            },
            Rank::Less => {
                assert forall|i: int| 0 <= i < middle + 1 implies text_before(
                    #[trigger] all[i],
                    text@,
                ) by {
                    if i < middle {
                        assert(text_before(all[i], all[middle as int]));
                        lemma_text_before_transitive(all[i], pivot, text@);
                    }
                }
                low = middle + 1;
            },
            Rank::Greater => {
                assert forall|i: int| middle <= i < list@.len() implies text_before(
                    text@,
                    #[trigger] all[i],
                ) by {
                    if i > middle {
                        assert(text_before(all[middle as int], all[i]));
                        lemma_text_before_transitive(text@, pivot, all[i]);
                    }
                }
                high = middle;
            },
        }
    }
    assert(!all.contains(text@)) by {
        if all.contains(text@) {
            let k = choose|k: int| 0 <= k < all.len() && all[k] == text@;
            lemma_text_before_irreflexive(text@);
            assert(text_before(all[k], text@) || text_before(text@, all[k]));
        }
    }
    (false, low)
}

// ---------------------------------------------------------------------------
// Sets

/// A set of texts.
#[derive(Debug)]
pub struct StringSet {
    items: Vec<String>,
}

impl View for StringSet {
    type V = Set<Seq<char>>;

    closed spec fn view(&self) -> Set<Seq<char>> {
        self.items.deep_view().to_set()
    }
}

impl StringSet {
    /// The texts are held in order, each once.
    pub closed spec fn wf(&self) -> bool {
        ascending(self.items.deep_view())
    }

    pub fn new() -> (set: StringSet)
        ensures
            set.wf(),
            set@ == Set::<Seq<char>>::empty(),
    {
        let set = StringSet { items: Vec::new() };
        assert(set.items.deep_view().to_set() =~= Set::<Seq<char>>::empty());
        set
    }

    pub fn contains(&self, text: &str) -> (found: bool)
        requires
            self.wf(),
        ensures
            found == self@.contains(text@),
    {
        place_of(&self.items, text).0
    }

    pub fn insert(&mut self, text: String)
        requires
            old(self).wf(),
        ensures
            final(self).wf(),
            final(self)@ == old(self)@.insert(text@),
    {
        let (present, at) = place_of(&self.items, text.as_str());
        let ghost before = self.items.deep_view();
        let ghost x = text@;
        if present {
            assert(before.to_set().insert(x) =~= before.to_set());
        } else {
            self.items.insert(at, text);
            assert(self.items.deep_view() =~= before.insert(at as int, x));
            proof {
                lemma_inserted(before, x, at as int);
            }
        }
    }

    /// Adds all texts of a list.
    pub fn insert_all(&mut self, texts: &[String])
        requires
            old(self).wf(),
        ensures
            final(self).wf(),
            final(self)@ == old(self)@.union(texts.deep_view().to_set()),
    {
        let ghost start = self@;
        let ghost all = texts.deep_view();
        let mut i: usize = 0;
        assert(self@ =~= start.union(all.take(0).to_set()));
        while i < texts.len()
            invariant
                self.wf(),
                i <= texts@.len(),
                all == texts.deep_view(),
                self@ == start.union(all.take(i as int).to_set()),
            decreases texts@.len() - i,
        {
            self.insert(texts[i].clone());
            proof {
                lemma_take_to_set(all, i as int);
                assert(self@ =~= start.union(all.take(i + 1).to_set()));
            }
            i = i + 1;
        }
        assert(all.take(i as int) =~= all);
    }

    /// Adds all texts of another set.
    pub fn insert_set(&mut self, other: &StringSet)
        requires
            old(self).wf(),
            other.wf(),
        ensures
            final(self).wf(),
            final(self)@ == old(self)@.union(other@),
    {
        let texts = slice_of(&other.items);
        self.insert_all(texts);
    }

    pub fn len(&self) -> (n: usize)
        requires
            self.wf(),
        ensures
            n == self@.len(),
            n == listed(self@).len(),
            self@.finite(),
    {
        proof {
            lemma_listed(self.items.deep_view());
        }
        self.items.len()
    }

    /// The texts in order.
    pub fn into_vec(self) -> (texts: Vec<String>)
        requires
            self.wf(),
        ensures
            texts.deep_view() == listed(self@),
            texts.deep_view().to_set() == self@,
            ascending(texts.deep_view()),
    {
        proof {
            lemma_listed(self.items.deep_view());
        }
        self.items
    }

    /// The first of the texts in order.
    pub fn first(&self) -> (text: &str)
        requires
            self.wf(),
            self@.len() > 0,
        ensures
            text@ == listed(self@)[0],
    {
        proof {
            lemma_listed(self.items.deep_view());
        }
        self.items[0].as_str()
    }
}

/// One more element in a prefix joins the set of its elements.
pub proof fn lemma_take_to_set<T>(s: Seq<T>, i: int)
    requires
        0 <= i < s.len(),
    ensures
        s.take(i + 1).to_set() == s.take(i).to_set().insert(s[i]),
{
    let shorter = s.take(i);
    let longer = s.take(i + 1);
    assert forall|z: T| longer.to_set().contains(z) <==> shorter.to_set().insert(s[i]).contains(z) by {
        if longer.contains(z) {
            let k = choose|k: int| 0 <= k < longer.len() && longer[k] == z;
            if k < i {
                assert(shorter[k] == z);
            }
        }
        if shorter.contains(z) {
            let k = choose|k: int| 0 <= k < shorter.len() && shorter[k] == z;
            assert(longer[k] == z);
        }
        assert(longer[i] == s[i]);
    }
    assert(longer.to_set() =~= shorter.to_set().insert(s[i]));
}

/// The elements of two sequences after one another are those of both.
pub proof fn lemma_concat_to_set<T>(a: Seq<T>, b: Seq<T>)
    ensures
        (a + b).to_set() == a.to_set().union(b.to_set()),
{
    let c = a + b;
    assert forall|z: T| c.to_set().contains(z) <==> a.to_set().union(b.to_set()).contains(z) by {
        if c.contains(z) {
            let k = choose|k: int| 0 <= k < c.len() && c[k] == z;
            if k < a.len() {
                assert(a[k] == z);
            } else {
                assert(b[k - a.len()] == z);
            }
        }
        if a.contains(z) {
            let k = choose|k: int| 0 <= k < a.len() && a[k] == z;
            assert(c[k] == z);
        }
        if b.contains(z) {
            let k = choose|k: int| 0 <= k < b.len() && b[k] == z;
            assert(c[a.len() + k] == z);
        }
    }
    assert(c.to_set() =~= a.to_set().union(b.to_set()));
}

/// The texts of a list in order, each once.
pub fn ordered_texts(texts: &[String]) -> (ordered: Vec<String>)
    ensures
        ordered.deep_view() == listed(texts.deep_view().to_set()),
{
    let mut set = StringSet::new();
    set.insert_all(texts);
    assert(set@ =~= texts.deep_view().to_set());
    set.into_vec()
}

// ---------------------------------------------------------------------------
// Maps

/// A map from texts.
#[derive(Debug)]
pub struct StringMap<V> {
    keys: Vec<String>,
    values: Vec<V>,
}

impl<V> View for StringMap<V> {
    type V = Map<Seq<char>, V>;

    closed spec fn view(&self) -> Map<Seq<char>, V> {
        let keys = self.keys.deep_view();
        let values = self.values@;
        Map::new(|k: Seq<char>| keys.contains(k), |k: Seq<char>| values[keys.index_of(k)])
    }
}

impl<V: DeepView> DeepView for StringMap<V> {
    type V = Map<Seq<char>, V::V>;

    open spec fn deep_view(&self) -> Map<Seq<char>, V::V> {
        self@.map_values(|v: V| v.deep_view())
    }
}

/// What a map has for a key.
pub open spec fn lookup<V>(map: Map<Seq<char>, V>, key: Seq<char>) -> Option<V> {
    if map.contains_key(key) {
        Some(map[key])
    } else {
        None
    }
}

impl<V> StringMap<V> {
    /// The keys are held in order, each once, each with one value.
    pub closed spec fn wf(&self) -> bool {
        &&& ascending(self.keys.deep_view())
        &&& self.keys@.len() == self.values@.len()
    }

    proof fn lemma_at(&self, i: int)
        requires
            self.wf(),
            0 <= i < self.keys@.len(),
        ensures
            self@.contains_key(self.keys@[i]@),
            self@[self.keys@[i]@] == self.values@[i],
    {
        let keys = self.keys.deep_view();
        lemma_listed(keys);
        let k = keys[i];
        assert(keys.contains(k));
        assert(keys.index_of(k) == i);
    }

    /// With another value at one place, the map has that value for its key.
    proof fn lemma_replaced(&self, before: Self, at: int, value: V)
        requires
            before.wf(),
            0 <= at < before.keys@.len(),
            self.keys == before.keys,
            self.values@ == before.values@.update(at, value),
        ensures
            self.wf(),
            self@ == before@.insert(before.keys@[at]@, value),
    {
        let keys = before.keys.deep_view();
        let k = keys[at];
        lemma_listed(keys);
        assert(keys.contains(k));
        assert(keys.index_of(k) == at);
        assert forall|z: Seq<char>| #[trigger] keys.contains(z) implies self.values@[keys.index_of(z)]
            == (if z == k {
            value
        } else {
            before.values@[keys.index_of(z)]
        }) by {
            assert(keys[keys.index_of(z)] == z);
        }
        assert(self@ =~= before@.insert(k, value));
    }

    pub fn new() -> (map: StringMap<V>)
        ensures
            map.wf(),
            map@ == Map::<Seq<char>, V>::empty(),
    {
        let map = StringMap { keys: Vec::new(), values: Vec::new() };
        assert(map@ =~= Map::<Seq<char>, V>::empty());
        map
    }

    pub fn get(&self, key: &str) -> (value: Option<&V>)
        requires
            self.wf(),
        ensures
            value is Some <==> self@.contains_key(key@),
            value matches Some(v) ==> *v == self@[key@],
    {
        let (present, at) = place_of(&self.keys, key);
        if present {
            proof {
                self.lemma_at(at as int);
            }
            Some(&self.values[at])
        } else {
            None
        }
    }

    /// Maps `key` to `value`, whatever it was mapped to before.
    pub fn insert(&mut self, key: String, value: V)
        requires
            old(self).wf(),
        ensures
            final(self).wf(),
            final(self)@ == old(self)@.insert(key@, value),
    {
        let (present, at) = place_of(&self.keys, key.as_str());
        let ghost old_map = *self;
        let ghost keys = self.keys.deep_view();
        let ghost values = self.values@;
        let ghost k = key@;
        if present {
            self.values.set(at, value);
            proof {
                self.lemma_replaced(old_map, at as int, value);
            }
        } else {
            self.keys.insert(at, key);
            self.values.insert(at, value);
            proof {
                let new_keys = self.keys.deep_view();
                assert(new_keys =~= keys.insert(at as int, k));
                lemma_inserted(keys, k, at as int);
                lemma_listed(keys);
                lemma_listed(new_keys);
                assert forall|z: Seq<char>| new_keys.contains(z) <==> keys.contains(z) || z == k by {
                    assert(new_keys.to_set().contains(z) <==> keys.to_set().insert(k).contains(z));
                }
                assert forall|z: Seq<char>| #[trigger] new_keys.contains(z) implies self.values@[new_keys.index_of(
                    z,
                )] == (if z == k {
                    value
                } else {
                    values[keys.index_of(z)]
                }) by {
                    let n = new_keys.index_of(z);
                    assert(new_keys[n] == z);
                    if n < at {
                        assert(keys[n] == z);
                        assert(keys.index_of(z) == n);
                    } else if n > at {
                        assert(keys[n - 1] == z);
                        assert(keys.index_of(z) == n - 1);
                    } else {
                        assert(z == k);
                    }
                    if z == k {
                        assert(new_keys[at as int] == k);
                    }
                }
                assert(self@ =~= old_map@.insert(k, value));
            }
        }
    }

    pub fn len(&self) -> (n: usize)
        requires
            self.wf(),
        ensures
            n == listed(self@.dom()).len(),
    {
        proof {
            self.lemma_keys();
        }
        self.keys.len()
    }

    /// The listed keys are those of the map.
    pub proof fn lemma_listed_keys(&self)
        requires
            self.wf(),
        ensures
            listed(self@.dom()).to_set() == self@.dom(),
            self@.dom().finite(),
    {
        self.lemma_keys();
        assert(self@.dom() =~= self.keys.deep_view().to_set());
    }

    proof fn lemma_keys(&self)
        requires
            self.wf(),
        ensures
            listed(self@.dom()) == self.keys.deep_view(),
            self@.dom().finite(),
    {
        let keys = self.keys.deep_view();
        lemma_listed(keys);
        assert(self@.dom() =~= keys.to_set());
    }

    /// The key at a place in the order of keys.
    pub fn key_at(&self, i: usize) -> (key: &str)
        requires
            self.wf(),
            i < listed(self@.dom()).len(),
        ensures
            key@ == listed(self@.dom())[i as int],
            self@.contains_key(key@),
    {
        proof {
            self.lemma_keys();
            self.lemma_at(i as int);
        }
        self.keys[i].as_str()
    }

    /// The value at a place in the order of keys.
    pub fn value_at(&self, i: usize) -> (value: &V)
        requires
            self.wf(),
            i < listed(self@.dom()).len(),
        ensures
            self@.contains_key(listed(self@.dom())[i as int]),
            *value == self@[listed(self@.dom())[i as int]],
    {
        proof {
            self.lemma_keys();
            self.lemma_at(i as int);
        }
        &self.values[i]
    }
}

// ---------------------------------------------------------------------------
// Groups

/// The group under a key: none yet is an empty one.
pub open spec fn group_at(groups: Map<Seq<char>, Seq<usize>>, key: Seq<char>) -> Seq<usize> {
    if groups.contains_key(key) {
        groups[key]
    } else {
        Seq::empty()
    }
}

impl StringMap<Vec<usize>> {
    /// Adds a number to the group under a key.
    pub fn push_to(&mut self, key: String, number: usize)
        requires
            old(self).wf(),
        ensures
            final(self).wf(),
            final(self).deep_view() == old(self).deep_view().insert(
                key@,
                group_at(old(self).deep_view(), key@).push(number),
            ),
    {
        let ghost before = *self;
        let ghost k = key@;
        let ghost longer = group_at(self.deep_view(), k).push(number);
        let (present, at) = place_of(&self.keys, key.as_str());
        if present {
            proof {
                self.lemma_at(at as int);
            }
            self.values[at].push(number);
            proof {
                let value = self.values@[at as int];
                self.lemma_replaced(before, at as int, value);
                assert(value.deep_view() =~= longer);
                assert(self.deep_view() =~= before.deep_view().insert(k, longer));
            }
        } else {
            let mut group: Vec<usize> = Vec::new();
            group.push(number);
            let ghost value = group;
            self.insert(key, group);
            proof {
                assert(value.deep_view() =~= longer);
                assert(self.deep_view() =~= before.deep_view().insert(k, longer));
            }
        }
    }
}

// ---------------------------------------------------------------------------
// Sets of numbers

/// Whether each number is less than all that follow it.
pub open spec fn increasing(numbers: Seq<usize>) -> bool {
    forall|i: int, j: int| 0 <= i < j < numbers.len() ==> #[trigger] numbers[i] < #[trigger] numbers[j]
}

/// The numbers of a finite set in order, each once.
pub open spec fn counted(numbers: Set<usize>) -> Seq<usize> {
    choose|list: Seq<usize>| increasing(list) && #[trigger] list.to_set() == numbers
}

/// The numbers of a set can be listed in order.
pub proof fn lemma_counted_exists(numbers: Set<usize>)
    ensures
        increasing(counted(numbers)),
        counted(numbers).to_set() == numbers,
{
    let list = lemma_counted_below(numbers, usize::MAX as nat + 1);
    assert(increasing(list) && list.to_set() == numbers);
}

proof fn lemma_counted_below(numbers: Set<usize>, bound: nat) -> (list: Seq<usize>)
    requires
        bound <= usize::MAX + 1,
        forall|x: usize| #[trigger] numbers.contains(x) ==> x < bound,
    ensures
        increasing(list),
        list.to_set() == numbers,
    decreases bound,
{
    if bound == 0 {
        let list = Seq::<usize>::empty();
        assert(list.to_set() =~= numbers);
        list
    } else {
        let top = (bound - 1) as usize;
        let rest = numbers.remove(top);
        let before = lemma_counted_below(rest, (bound - 1) as nat);
        if numbers.contains(top) {
            let list = before.push(top);
            assert forall|i: int, j: int| 0 <= i < j < list.len() implies #[trigger] list[i]
                < #[trigger] list[j] by {
                assert(before.to_set().contains(before[i]));
            }
            assert(list.to_set() =~= numbers) by {
                assert forall|x: usize| list.to_set().contains(x) <==> numbers.contains(x) by {
                    assert(list[list.len() - 1] == top);
                    assert(before.contains(x) <==> before.to_set().contains(x));
                    if before.contains(x) {
                        let k = choose|k: int| 0 <= k < before.len() && before[k] == x;
                        assert(list[k] == x);
                    }
                    if list.contains(x) && x != top {
                        let k = choose|k: int| 0 <= k < list.len() && list[k] == x;
                        assert(before[k] == x);
                    }
                }
            }
            list
        } else {
            assert(rest =~= numbers);
            before
        }
    }
}

/// Two increasing lists of the same numbers are the same list.
pub proof fn lemma_increasing_unique(a: Seq<usize>, b: Seq<usize>)
    requires
        increasing(a),
        increasing(b),
        a.to_set() == b.to_set(),
    ensures
        a == b,
    decreases a.len(),
{
    assert forall|x: usize| a.contains(x) <==> b.contains(x) by {
        assert(a.contains(x) <==> a.to_set().contains(x));
        assert(b.contains(x) <==> b.to_set().contains(x));
    }
    if a.len() == 0 || b.len() == 0 {
        if a.len() > 0 {
            assert(a.contains(a[0]));
        }
        if b.len() > 0 {
            assert(b.contains(b[0]));
        }
        assert(a =~= b);
    } else {
        let x = a.last();
        let y = b.last();
        assert(a.contains(x) && b.contains(y));
        let i = choose|i: int| 0 <= i < b.len() && b[i] == x;
        let j = choose|j: int| 0 <= j < a.len() && a[j] == y;
        assert(x == y);
        let c = a.drop_last();
        let d = b.drop_last();
        assert forall|z: usize| c.to_set().contains(z) <==> d.to_set().contains(z) by {
            if c.contains(z) {
                let k = choose|k: int| 0 <= k < c.len() && c[k] == z;
                assert(a[k] == z);
                assert(a.contains(z));
                let m = choose|m: int| 0 <= m < b.len() && b[m] == z;
                assert(d[m] == z);
            }
            if d.contains(z) {
                let k = choose|k: int| 0 <= k < d.len() && d[k] == z;
                assert(b[k] == z);
                assert(b.contains(z));
                let m = choose|m: int| 0 <= m < a.len() && a[m] == z;
                assert(c[m] == z);
            }
        }
        assert(c.to_set() =~= d.to_set());
        lemma_increasing_unique(c, d);
        assert(a =~= c.push(x));
        assert(b =~= d.push(y));
    }
}

/// A set of numbers.
#[derive(Debug)]
pub struct NumberSet {
    items: Vec<usize>,
}

impl View for NumberSet {
    type V = Set<usize>;

    closed spec fn view(&self) -> Set<usize> {
        self.items@.to_set()
    }
}

impl NumberSet {
    /// The numbers are held in order, each once.
    pub closed spec fn wf(&self) -> bool {
        increasing(self.items@)
    }

    pub fn new() -> (set: NumberSet)
        ensures
            set.wf(),
            set@ == Set::<usize>::empty(),
    {
        let set = NumberSet { items: Vec::new() };
        assert(set.items@.to_set() =~= Set::<usize>::empty());
        set
    }

    pub fn insert(&mut self, number: usize)
        requires
            old(self).wf(),
        ensures
            final(self).wf(),
            final(self)@ == old(self)@.insert(number),
    {
        let ghost before = self.items@;
        let mut at: usize = 0;
        while at < self.items.len() && self.items[at] < number
            invariant
                self.items@ == before,
                at <= self.items@.len(),
                forall|i: int| 0 <= i < at ==> #[trigger] self.items@[i] < number,
            decreases self.items@.len() - at,
        {
            at = at + 1;
        }
        if at < self.items.len() && self.items[at] == number {
            assert(before[at as int] == number);
            assert(before.to_set().insert(number) =~= before.to_set());
        } else {
            self.items.insert(at, number);
            proof {
                let after = self.items@;
                assert(after =~= before.insert(at as int, number));
                assert forall|z: usize| after.to_set().contains(z) <==> before.to_set().insert(
                    number,
                ).contains(z) by {
                    if after.contains(z) {
                        let k = choose|k: int| 0 <= k < after.len() && after[k] == z;
                        if k < at {
                            assert(before[k] == z);
                        } else if k > at {
                            assert(before[k - 1] == z);
                        }
                    }
                    if before.contains(z) {
                        let k = choose|k: int| 0 <= k < before.len() && before[k] == z;
                        if k < at {
                            assert(after[k] == z);
                        } else {
                            assert(after[k + 1] == z);
                        }
                    }
                    assert(after[at as int] == number);
                }
                assert(after.to_set() =~= before.to_set().insert(number));
            }
        }
    }

    /// Adds all numbers of a list.
    pub fn insert_all(&mut self, numbers: &[usize])
        requires
            old(self).wf(),
        ensures
            final(self).wf(),
            final(self)@ == old(self)@.union(numbers@.to_set()),
    {
        let ghost start = self@;
        let mut i: usize = 0;
        assert(self@ =~= start.union(numbers@.take(0).to_set()));
        while i < numbers.len()
            invariant
                self.wf(),
                i <= numbers@.len(),
                self@ == start.union(numbers@.take(i as int).to_set()),
            decreases numbers@.len() - i,
        {
            self.insert(numbers[i]);
            proof {
                lemma_take_to_set(numbers@, i as int);
                assert(self@ =~= start.union(numbers@.take(i + 1).to_set()));
            }
            i = i + 1;
        }
        assert(numbers@.take(i as int) =~= numbers@);
    }

    /// The numbers in order.
    pub fn into_vec(self) -> (numbers: Vec<usize>)
        requires
            self.wf(),
        ensures
            numbers@ == counted(self@),
            numbers@.to_set() == self@,
            increasing(numbers@),
    {
        proof {
            let list = self.items@;
            let other = counted(list.to_set());
            assert(increasing(list) && list.to_set() == self@);
            assert(increasing(other) && other.to_set() == list.to_set());
            lemma_increasing_unique(other, list);
        }
        self.items
    }
}

} // verus!
