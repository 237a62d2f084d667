//! Stable sorting by keys of texts and numbers.

use vstd::prelude::*;

use crate::text::{
    compare_texts, copied_texts, lemma_text_before_asymmetric, lemma_text_before_irreflexive,
    lemma_text_before_total, lemma_text_before_transitive, text_before, Rank,
};

verus! {

/// What a value is sorted by: a text, then two numbers, then another text.
#[derive(Debug)]
pub struct SortKey {
    pub text: String,
    pub first: usize,
    pub second: usize,
    pub last: String,
}

/// A [`SortKey`] as a mathematical value.
#[verifier::ext_equal]
pub struct Key {
    pub text: Seq<char>,
    pub first: int,
    pub second: int,
    pub last: Seq<char>,
}

impl DeepView for SortKey {
    type V = Key;

    open spec fn deep_view(&self) -> Key {
        Key {
            text: self.text@,
            first: self.first as int,
            second: self.second as int,
            last: self.last@,
        }
    }
}

/// Whether one key stands before another: by the first of the four parts in
/// which they differ.
pub open spec fn key_before(a: Key, b: Key) -> bool {
    if a.text != b.text {
        text_before(a.text, b.text)
    } else if a.first != b.first {
        a.first < b.first
    } else if a.second != b.second {
        a.second < b.second
    } else {
        text_before(a.last, b.last)
    }
}

/// No key stands before itself, and no two keys before each other.
pub proof fn lemma_key_before_asymmetric(a: Key, b: Key)
    requires
        key_before(a, b),
    ensures
        !key_before(b, a),
        a != b,
{
    lemma_text_before_irreflexive(a.last);
    if a.text != b.text {
        lemma_text_before_asymmetric(a.text, b.text);
    } else if a.first == b.first && a.second == b.second {
        lemma_text_before_asymmetric(a.last, b.last);
    }
}

/// The order of keys is transitive.
pub proof fn lemma_key_before_transitive(a: Key, b: Key, c: Key)
    requires
        key_before(a, b),
        key_before(b, c),
    ensures
        key_before(a, c),
{
    if a.text != b.text && b.text != c.text {
        lemma_text_before_transitive(a.text, b.text, c.text);
        if a.text == c.text {
            lemma_text_before_irreflexive(a.text);
        }
    } else if a.text == b.text && b.text == c.text && a.first == b.first && b.first == c.first
        && a.second == b.second && b.second == c.second {
        lemma_text_before_transitive(a.last, b.last, c.last);
    }
}

/// Of two different keys one stands before the other.
pub proof fn lemma_key_before_total(a: Key, b: Key)
    ensures
        a == b || key_before(a, b) || key_before(b, a),
{
    lemma_text_before_total(a.text, b.text);
    lemma_text_before_total(a.last, b.last);
}

/// What does not stand before something does not stand before what comes
/// before that.
proof fn lemma_key_not_before(a: Key, b: Key, c: Key)
    requires
        !key_before(a, b),
        !key_before(b, c),
    ensures
        !key_before(a, c),
{
    if key_before(a, c) {
        lemma_key_before_total(b, c);
        lemma_key_before_total(a, b);
        if key_before(c, b) {
            lemma_key_before_transitive(a, c, b);
        }
    }
}

fn is_key_before(a: &SortKey, b: &SortKey) -> (yes: bool)
    ensures
        yes == key_before(a.deep_view(), b.deep_view()),
{
    proof {
        lemma_text_before_irreflexive(a.text@);
        lemma_text_before_irreflexive(a.last@);
    }
    match compare_texts(a.text.as_str(), b.text.as_str()) {
        Rank::Less => true,
        Rank::Greater => false,
        Rank::Equal => if a.first != b.first {
            a.first < b.first
        } else if a.second != b.second {
            a.second < b.second
        } else {
            match compare_texts(a.last.as_str(), b.last.as_str()) {
                Rank::Less => true,
                _ => false,
            }
        },
    }
}

/// A value that has a place in an order.
pub trait Keyed: DeepView + Sized {
    /// What a value is sorted by.
    spec fn key_of(value: <Self as DeepView>::V) -> Key;

    fn sort_key(&self) -> (key: SortKey)
        ensures
            key.deep_view() == Self::key_of(self.deep_view()),
    ;
}

/// The key of values of one type, as a function.
pub open spec fn key_fn<T: Keyed>() -> spec_fn(<T as DeepView>::V) -> Key {
    |value: <T as DeepView>::V| T::key_of(value)
}

/// A sorted sequence with `x` put behind everything that it does not stand
/// before.
pub open spec fn with_inserted<V>(s: Seq<V>, x: V, key: spec_fn(V) -> Key) -> Seq<V>
    decreases s.len(),
{
    if s.len() == 0 || !key_before(key(x), key(s.last())) {
        s.push(x)
    } else {
        with_inserted(s.drop_last(), x, key).push(s.last())
    }
}

/// The values in the order of their keys; values with the same key stay in
/// the order in which they stood.
pub open spec fn sorted_by<V>(s: Seq<V>, key: spec_fn(V) -> Key) -> Seq<V>
    decreases s.len(),
{
    if s.len() == 0 {
        Seq::empty()
    } else {
        with_inserted(sorted_by(s.drop_last(), key), s.last(), key)
    }
}

/// Whether nothing stands behind something that it stands before.
pub open spec fn in_order<V>(s: Seq<V>, key: spec_fn(V) -> Key) -> bool {
    forall|i: int, j: int|
        0 <= i <= j < s.len() ==> !key_before(key(#[trigger] s[j]), key(#[trigger] s[i]))
}

/// Whether no two different values have the same key.
pub open spec fn tells_apart<V>(s: Seq<V>, key: spec_fn(V) -> Key) -> bool {
    forall|i: int, j: int|
        0 <= i < s.len() && 0 <= j < s.len() && key(s[i]) == key(s[j]) ==> #[trigger] s[i]
            == #[trigger] s[j]
}

proof fn lemma_inserted_at<V>(s: Seq<V>, x: V, key: spec_fn(V) -> Key, at: int)
    requires
        0 <= at <= s.len(),
        forall|i: int| 0 <= i < at ==> !key_before(key(x), key(#[trigger] s[i])),
        forall|i: int| at <= i < s.len() ==> key_before(key(x), key(#[trigger] s[i])),
    ensures
        with_inserted(s, x, key) == s.insert(at, x),
    decreases s.len(),
{
    if at == s.len() {
        if s.len() > 0 {
            assert(!key_before(key(x), key(s[s.len() - 1])));
        }
        assert(s.insert(at, x) =~= s.push(x));
    } else {
        assert(key_before(key(x), key(s[s.len() - 1])));
        let front = s.drop_last();
        assert forall|i: int| 0 <= i < at implies !key_before(key(x), key(#[trigger] front[i])) by {
            assert(front[i] == s[i]);
        }
        assert forall|i: int| at <= i < front.len() implies key_before(
            key(x),
            key(#[trigger] front[i]),
        ) by {
            assert(front[i] == s[i]);
        }
        lemma_inserted_at(front, x, key, at);
        assert(s.insert(at, x) =~= front.insert(at, x).push(s.last()));
    }
}

proof fn lemma_inserted_in_order<V>(s: Seq<V>, x: V, key: spec_fn(V) -> Key)
    requires
        in_order(s, key),
    ensures
        in_order(with_inserted(s, x, key), key),
        with_inserted(s, x, key).len() == s.len() + 1,
        with_inserted(s, x, key).to_multiset() == s.to_multiset().insert(x),
    decreases s.len(),
{
    broadcast use vstd::seq_lib::group_to_multiset_ensures;

    let r = with_inserted(s, x, key);
    if s.len() == 0 || !key_before(key(x), key(s.last())) {
        assert forall|i: int, j: int| 0 <= i <= j < r.len() implies !key_before(
            key(#[trigger] r[j]),
            key(#[trigger] r[i]),
        ) by {
            if j == s.len() {
                if i < s.len() {
                    assert(!key_before(key(s[s.len() - 1]), key(s[i])));
                    lemma_key_not_before(key(x), key(s[s.len() - 1]), key(s[i]));
                } else if key_before(key(x), key(x)) {
                    lemma_key_before_asymmetric(key(x), key(x));
                }
            } else {
                assert(r[i] == s[i] && r[j] == s[j]);
            }
        }
    } else {
        let front = s.drop_last();
        let inner = with_inserted(front, x, key);
        assert(in_order(front, key)) by {
            assert forall|i: int, j: int| 0 <= i <= j < front.len() implies !key_before(
                key(#[trigger] front[j]),
                key(#[trigger] front[i]),
            ) by {
                assert(front[i] == s[i] && front[j] == s[j]);
            }
        }
        lemma_inserted_in_order(front, x, key);
        assert(s =~= front.push(s.last()));
        assert(r.to_multiset() =~= s.to_multiset().insert(x));
        assert forall|i: int, j: int| 0 <= i <= j < r.len() implies !key_before(
            key(#[trigger] r[j]),
            key(#[trigger] r[i]),
        ) by {
            if j < inner.len() {
                assert(r[i] == inner[i] && r[j] == inner[j]);
            } else if i < inner.len() {
                assert(r[i] == inner[i]);
                assert(inner.to_multiset().contains(inner[i]));
                if inner[i] == x {
                    lemma_key_before_asymmetric(key(x), key(s.last()));
                } else {
                    assert(front.to_multiset().contains(inner[i]));
                    assert(front.contains(inner[i]));
                    let k = choose|k: int| 0 <= k < front.len() && front[k] == inner[i];
                    assert(s[k] == inner[i]);
                    assert(!key_before(key(s[s.len() - 1]), key(s[k])));
                }
            } else if key_before(key(s.last()), key(s.last())) {
                lemma_key_before_asymmetric(key(s.last()), key(s.last()));
            }
        }
    }
}

/// Sorting loses nothing, adds nothing, and leaves nothing behind what it
/// stands before.
pub proof fn lemma_sorted_by<V>(s: Seq<V>, key: spec_fn(V) -> Key)
    ensures
        in_order(sorted_by(s, key), key),
        sorted_by(s, key).len() == s.len(),
        sorted_by(s, key).to_multiset() == s.to_multiset(),
    decreases s.len(),
{
    broadcast use vstd::seq_lib::group_to_multiset_ensures;

    if s.len() > 0 {
        let front = s.drop_last();
        lemma_sorted_by(front, key);
        lemma_inserted_in_order(sorted_by(front, key), s.last(), key);
        assert(s =~= front.push(s.last()));
    } else {
        assert(sorted_by(s, key) =~= s);
    }
}

/// Whether a value has a key.
pub open spec fn has_sort_key<V>(key: spec_fn(V) -> Key, wanted: Key) -> spec_fn(V) -> bool {
    |value: V| key(value) == wanted
}

proof fn lemma_inserted_stable<V>(s: Seq<V>, x: V, key: spec_fn(V) -> Key, wanted: Key)
    ensures
        with_inserted(s, x, key).filter(has_sort_key(key, wanted)) == if key(x) == wanted {
            s.filter(has_sort_key(key, wanted)).push(x)
        } else {
            s.filter(has_sort_key(key, wanted))
        },
    decreases s.len(),
{
    reveal(Seq::filter);
    let kept = has_sort_key(key, wanted);
    if s.len() == 0 || !key_before(key(x), key(s.last())) {
        assert(s.push(x).drop_last() =~= s);
        assert(s.push(x).last() == x);
    } else {
        let front = s.drop_last();
        let inner = with_inserted(front, x, key);
        lemma_inserted_stable(front, x, key, wanted);
        lemma_key_before_asymmetric(key(x), key(s.last()));
        assert(inner.push(s.last()).drop_last() =~= inner);
        assert(inner.push(s.last()).last() == s.last());
    }
}

/// Values with the same key stay in the order in which they stood.
pub proof fn law_sorting_is_stable<V>(s: Seq<V>, key: spec_fn(V) -> Key, wanted: Key)
    ensures
        sorted_by(s, key).filter(has_sort_key(key, wanted)) == s.filter(has_sort_key(key, wanted)),
    decreases s.len(),
{
    reveal(Seq::filter);
    if s.len() > 0 {
        let front = s.drop_last();
        law_sorting_is_stable(front, key, wanted);
        lemma_inserted_stable(sorted_by(front, key), s.last(), key, wanted);
    } else {
        assert(sorted_by(s, key) =~= s);
    }
}

/// The first position whose key `key` stands before, in keys that are in order.
fn place_for(keys: &Vec<SortKey>, key: &SortKey) -> (at: usize)
    requires
        in_order(keys.deep_view(), |k: Key| k),
    ensures
        at <= keys@.len(),
        forall|i: int| 0 <= i < at ==> !key_before(key.deep_view(), #[trigger] keys.deep_view()[i]),
        forall|i: int|
            at <= i < keys@.len() ==> key_before(key.deep_view(), #[trigger] keys.deep_view()[i]),
{
    let ghost all = keys.deep_view();
    let ghost wanted = key.deep_view();
    let mut low: usize = 0;
    let mut high: usize = keys.len();
    while low < high
        invariant
            all == keys.deep_view(),
            wanted == key.deep_view(),
            in_order(all, |k: Key| k),
            low <= high <= keys@.len(),
            forall|i: int| 0 <= i < low ==> !key_before(wanted, #[trigger] all[i]),
            forall|i: int| high <= i < keys@.len() ==> key_before(wanted, #[trigger] all[i]),
        decreases high - low,
    {
        let middle: usize = low + (high - low) / 2;
        let ghost pivot = all[middle as int];
        if is_key_before(key, &keys[middle]) {
            assert forall|i: int| middle <= i < keys@.len() implies key_before(
                wanted,
                #[trigger] all[i],
            ) by {
                let id = |k: Key| k;
                assert(!key_before(id(all[i]), id(all[middle as int])));
                if !key_before(wanted, all[i]) {
                    lemma_key_not_before(wanted, all[i], pivot);
                }
            }
            high = middle;
        } else {
            assert forall|i: int| 0 <= i < middle + 1 implies !key_before(
                wanted,
                #[trigger] all[i],
            ) by {
                let id = |k: Key| k;
                assert(!key_before(id(all[middle as int]), id(all[i])));
                lemma_key_not_before(wanted, pivot, all[i]);
            }
            low = middle + 1;
        }
    }
    low
}

/// Sorts values by their keys; values with the same key keep their order.
pub fn sort_keyed<T: Keyed>(items: Vec<T>) -> (sorted: Vec<T>)
    ensures
        sorted.deep_view() == sorted_by(items.deep_view(), key_fn::<T>()),
{
    let ghost all = items.deep_view();
    let ghost key = key_fn::<T>();
    let mut sorted: Vec<T> = Vec::new();
    let mut keys: Vec<SortKey> = Vec::new();
    for item in it: items
        invariant
            it.seq() == items@,
            all == items.deep_view(),
            key == key_fn::<T>(),
            sorted.deep_view() == sorted_by(all.take(it.index()), key),
            keys@.len() == sorted@.len(),
            forall|i: int|
                0 <= i < keys@.len() ==> (#[trigger] keys@[i]).deep_view() == key(
                    sorted.deep_view()[i],
                ),
    {
        let place = item.sort_key();
        let ghost x = item.deep_view();
        let ghost before = sorted.deep_view();
        let ghost sorted_before = sorted@;
        let ghost keys_before = keys@;
        proof {
            lemma_sorted_by(all.take(it.index()), key);
            let key_views = keys.deep_view();
            let id = |k: Key| k;
            assert forall|i: int, j: int| 0 <= i <= j < key_views.len() implies !key_before(
                id(#[trigger] key_views[j]),
                id(#[trigger] key_views[i]),
            ) by {
                assert(!key_before(key(before[j]), key(before[i])));
            }
        }
        let at: usize = place_for(&keys, &place);
        proof {
            assert forall|i: int| 0 <= i < at implies !key_before(key(x), key(#[trigger] before[i])) by {
                assert(keys.deep_view()[i] == key(before[i]));
            }
            assert forall|i: int| at <= i < before.len() implies key_before(
                key(x),
                key(#[trigger] before[i]),
            ) by {
                assert(keys.deep_view()[i] == key(before[i]));
            }
            lemma_inserted_at(before, x, key, at as int);
            assert(all.take(it.index() + 1).drop_last() =~= all.take(it.index()));
            assert(all.take(it.index() + 1).last() == x);
        }
        keys.insert(at, place);
        sorted.insert(at, item);
        proof {
            assert(sorted.deep_view() =~= before.insert(at as int, x));
            assert forall|i: int| 0 <= i < keys@.len() implies (#[trigger] keys@[i]).deep_view()
                == key(sorted.deep_view()[i]) by {
                if i < at {
                    assert(keys@[i] == keys_before[i]);
                } else if i > at {
                    assert(keys@[i] == keys_before[i - 1]);
                }
            }
        }
    }
    assert(all.take(all.len() as int) =~= all);
    sorted
}

impl Keyed for String {
    open spec fn key_of(value: Seq<char>) -> Key {
        Key { text: value, first: 0, second: 0, last: Seq::empty() }
    }

    fn sort_key(&self) -> (key: SortKey) {
        SortKey { text: self.clone(), first: 0, second: 0, last: String::new() }
    }
}

/// Texts in order, each as often as it stands in the sequence.
pub open spec fn sorted_texts(texts: Seq<Seq<char>>) -> Seq<Seq<char>> {
    sorted_by(texts, key_fn::<String>())
}

/// Texts in order are the same texts, and none stands behind one that it stands
/// before.
pub proof fn lemma_sorted_texts(texts: Seq<Seq<char>>)
    ensures
        sorted_texts(texts).to_multiset() == texts.to_multiset(),
        forall|i: int, j: int|
            0 <= i < j < sorted_texts(texts).len() ==> {
                let a = #[trigger] sorted_texts(texts)[i];
                let b = #[trigger] sorted_texts(texts)[j];
                a == b || text_before(a, b)
            },
{
    let key = key_fn::<String>();
    let sorted = sorted_texts(texts);
    lemma_sorted_by(texts, key);
    assert forall|i: int, j: int| 0 <= i < j < sorted.len() implies {
        let a = #[trigger] sorted[i];
        let b = #[trigger] sorted[j];
        a == b || text_before(a, b)
    } by {
        assert(!key_before(key(sorted[j]), key(sorted[i])));
        lemma_text_before_total(sorted[i], sorted[j]);
    }
}

/// The texts in order.
pub fn sorted_strings(values: &[String]) -> (sorted: Vec<String>)
    ensures
        sorted.deep_view() == sorted_texts(values.deep_view()),
{
    sort_keyed(copied_texts(values))
}

/// Values in order depend only on which values there are, and how often, where
/// no two different ones have the same key.
pub proof fn lemma_sorted_by_unique<V>(a: Seq<V>, b: Seq<V>, key: spec_fn(V) -> Key)
    requires
        a.to_multiset() == b.to_multiset(),
        tells_apart(a, key),
    ensures
        sorted_by(a, key) == sorted_by(b, key),
{
    broadcast use vstd::seq_lib::group_to_multiset_ensures;

    let sorted = sorted_by(a, key);
    lemma_sorted_by(a, key);
    lemma_sorted_by(b, key);
    assert forall|i: int, j: int|
        0 <= i < sorted.len() && 0 <= j < sorted.len() && key(sorted[i]) == key(
            sorted[j],
        ) implies #[trigger] sorted[i] == #[trigger] sorted[j] by {
        assert(sorted.to_multiset().contains(sorted[i]));
        assert(sorted.to_multiset().contains(sorted[j]));
        assert(a.contains(sorted[i]) && a.contains(sorted[j]));
        let k = choose|k: int| 0 <= k < a.len() && a[k] == sorted[i];
        let m = choose|m: int| 0 <= m < a.len() && a[m] == sorted[j];
        assert(key(a[k]) == key(a[m]));
    }
    lemma_in_order_unique(sorted, sorted_by(b, key), key);
}

/// Texts in order depend only on which texts there are, and how often.
pub proof fn lemma_sorted_texts_unique(a: Seq<Seq<char>>, b: Seq<Seq<char>>)
    requires
        a.to_multiset() == b.to_multiset(),
    ensures
        sorted_texts(a) == sorted_texts(b),
{
    lemma_sorted_by_unique(a, b, key_fn::<String>());
}

proof fn lemma_in_order_unique<V>(a: Seq<V>, b: Seq<V>, key: spec_fn(V) -> Key)
    requires
        in_order(a, key),
        in_order(b, key),
        a.to_multiset() == b.to_multiset(),
        tells_apart(a, key),
    ensures
        a == b,
    decreases a.len(),
{
    broadcast use vstd::seq_lib::group_to_multiset_ensures;

    assert(a.len() == a.to_multiset().len() && b.len() == b.to_multiset().len());
    if a.len() == 0 {
        assert(a =~= b);
    } else {
        let n = a.len() - 1;
        let x = a.last();
        let y = b.last();
        assert(a.to_multiset().contains(x) && b.to_multiset().contains(y));
        assert(b.contains(x) && a.contains(y));
        let i = choose|i: int| 0 <= i < b.len() && b[i] == x;
        let j = choose|j: int| 0 <= j < a.len() && a[j] == y;
        assert(!key_before(key(b[n]), key(b[i])));
        assert(!key_before(key(a[n]), key(a[j])));
        lemma_key_before_total(key(x), key(y));
        assert(key(a[n]) == key(a[j]));
        assert(x == y);
        let c = a.drop_last();
        let d = b.drop_last();
        assert(a =~= c.push(x));
        assert(b =~= d.push(x));
        assert(c.to_multiset() =~= a.to_multiset().remove(x));
        assert(d.to_multiset() =~= b.to_multiset().remove(x));
        assert forall|i: int, j: int| 0 <= i <= j < c.len() implies !key_before(
            key(#[trigger] c[j]),
            key(#[trigger] c[i]),
        ) by {
            assert(!key_before(key(a[j]), key(a[i])));
        }
        assert forall|i: int, j: int| 0 <= i <= j < d.len() implies !key_before(
            key(#[trigger] d[j]),
            key(#[trigger] d[i]),
        ) by {
            assert(!key_before(key(b[j]), key(b[i])));
        }
        assert forall|i: int, j: int|
            0 <= i < c.len() && 0 <= j < c.len() && key(c[i]) == key(
                c[j],
            ) implies #[trigger] c[i] == #[trigger] c[j] by {
            assert(a[i] == c[i] && a[j] == c[j]);
        }
        lemma_in_order_unique(c, d, key);
    }
}

} // verus!
