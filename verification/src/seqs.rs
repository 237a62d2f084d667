//! Facts about sequences that the contracts of this crate share.

use vstd::prelude::*;

verus! {

/// The first element that satisfies the condition.
pub open spec fn first_where<T>(s: Seq<T>, wanted: spec_fn(T) -> bool) -> Option<T>
    decreases s.len(),
{
    if s.len() == 0 {
        None
    } else if wanted(s[0]) {
        Some(s[0])
    } else {
        first_where(s.drop_first(), wanted)
    }
}

/// The element at `i` is the first one wanted if none before it is.
pub proof fn lemma_first_where_at<T>(s: Seq<T>, wanted: spec_fn(T) -> bool, i: int)
    requires
        0 <= i < s.len(),
        wanted(s[i]),
        forall|j: int| 0 <= j < i ==> !wanted(#[trigger] s[j]),
    ensures
        first_where(s, wanted) == Some(s[i]),
    decreases s.len(),
{
    if i > 0 {
        assert(!wanted(s[0]));
        assert forall|j: int| 0 <= j < i - 1 implies !wanted(#[trigger] s.drop_first()[j]) by {
            assert(s.drop_first()[j] == s[j + 1]);
        }
        lemma_first_where_at(s.drop_first(), wanted, i - 1);
    }
}

/// There is no first one if none is wanted.
pub proof fn lemma_first_where_none<T>(s: Seq<T>, wanted: spec_fn(T) -> bool)
    requires
        forall|j: int| 0 <= j < s.len() ==> !wanted(#[trigger] s[j]),
    ensures
        first_where(s, wanted) is None,
    decreases s.len(),
{
    if s.len() > 0 {
        assert(!wanted(s[0]));
        assert forall|j: int| 0 <= j < s.len() - 1 implies !wanted(#[trigger] s.drop_first()[j]) by {
            assert(s.drop_first()[j] == s[j + 1]);
        }
        lemma_first_where_none(s.drop_first(), wanted);
    }
}

/// What is found is wanted and stands in the sequence.
pub proof fn lemma_first_where_found<T>(s: Seq<T>, wanted: spec_fn(T) -> bool)
    ensures
        first_where(s, wanted) matches Some(x) ==> wanted(x) && s.contains(x),
        first_where(s, wanted) is None ==> forall|j: int| 0 <= j < s.len() ==> !wanted(#[trigger] s[j]),
    decreases s.len(),
{
    if s.len() > 0 {
        if wanted(s[0]) {
            assert(s.contains(s[0]));
        } else {
            let rest = s.drop_first();
            lemma_first_where_found(rest, wanted);
            match first_where(rest, wanted) {
                Some(x) => {
                    let j = choose|j: int| 0 <= j < rest.len() && rest[j] == x;
                    assert(s[j + 1] == x);
                },
                None => {
                    assert forall|j: int| 0 <= j < s.len() implies !wanted(#[trigger] s[j]) by {
                        if j > 0 {
                            assert(rest[j - 1] == s[j]);
                        }
                    }
                },
            }
        }
    }
}

/// Where the first one stands, if there is one.
pub proof fn lemma_first_where_place<T>(s: Seq<T>, wanted: spec_fn(T) -> bool) -> (i: int)
    ensures
        first_where(s, wanted) is None ==> forall|j: int|
            0 <= j < s.len() ==> !wanted(#[trigger] s[j]),
        first_where(s, wanted) matches Some(x) ==> {
            &&& 0 <= i < s.len()
            &&& s[i] == x
            &&& wanted(x)
            &&& forall|j: int| 0 <= j < i ==> !wanted(#[trigger] s[j])
        },
    decreases s.len(),
{
    lemma_first_where_found(s, wanted);
    if s.len() == 0 || wanted(s[0]) {
        0
    } else {
        let rest = s.drop_first();
        let i = lemma_first_where_place(rest, wanted);
        if first_where(rest, wanted) is Some {
            assert(s[i + 1] == rest[i]);
            assert forall|j: int| 0 <= j < i + 1 implies !wanted(#[trigger] s[j]) by {
                if j > 0 {
                    assert(rest[j - 1] == s[j]);
                }
            }
        }
        i + 1
    }
}

/// One element more to look through.
pub proof fn lemma_first_where_step<T>(s: Seq<T>, wanted: spec_fn(T) -> bool, i: int)
    requires
        0 <= i < s.len(),
    ensures
        first_where(s.take(i + 1), wanted) == match first_where(s.take(i), wanted) {
            Some(x) => Some(x),
            None => if wanted(s[i]) {
                Some(s[i])
            } else {
                None
            },
        },
    decreases i,
{
    let shorter = s.take(i);
    let longer = s.take(i + 1);
    if i == 0 {
        assert(longer.drop_first() =~= Seq::empty());
        assert(first_where(longer.drop_first(), wanted) is None);
        assert(longer[0] == s[0]);
    } else {
        assert(longer[0] == s[0] && shorter[0] == s[0]);
        assert(s.drop_first()[i - 1] == s[i]);
        assert(longer.drop_first() =~= s.drop_first().take(i));
        assert(shorter.drop_first() =~= s.drop_first().take(i - 1));
        lemma_first_where_step(s.drop_first(), wanted, i - 1);
    }
}

/// The elements of all sequences after one another.
pub open spec fn flattened<T>(s: Seq<Seq<T>>) -> Seq<T>
    decreases s.len(),
{
    if s.len() == 0 {
        Seq::empty()
    } else {
        flattened(s.drop_last()) + s.last()
    }
}

/// One sequence more to put after the others.
pub proof fn lemma_flattened_step<T>(s: Seq<Seq<T>>, i: int)
    requires
        0 <= i < s.len(),
    ensures
        flattened(s.take(i + 1)) == flattened(s.take(i)) + s[i],
{
    assert(s.take(i + 1).drop_last() =~= s.take(i));
    assert(s.take(i + 1).last() == s[i]);
}

/// Sequences after others.
pub proof fn lemma_flattened_concat<T>(a: Seq<Seq<T>>, b: Seq<Seq<T>>)
    ensures
        flattened(a + b) == flattened(a) + flattened(b),
    decreases b.len(),
{
    if b.len() == 0 {
        assert(a + b =~= a);
        assert(flattened(a) + flattened(b) =~= flattened(a));
    } else {
        lemma_flattened_concat(a, b.drop_last());
        assert((a + b).drop_last() =~= a + b.drop_last());
        assert((a + b).last() == b.last());
        assert(flattened(a + b) =~= flattened(a) + flattened(b));
    }
}

/// What stands in all sequences after one another stands in one of them.
pub proof fn lemma_flattened_contains<T>(s: Seq<Seq<T>>, x: T)
    ensures
        flattened(s).contains(x) <==> exists|i: int|
            0 <= i < s.len() && (#[trigger] s[i]).contains(x),
    decreases s.len(),
{
    if s.len() > 0 {
        let front = s.drop_last();
        let before = flattened(front);
        let last = s.last();
        lemma_flattened_contains(front, x);
        if flattened(s).contains(x) {
            let k = choose|k: int| 0 <= k < flattened(s).len() && flattened(s)[k] == x;
            if k < before.len() {
                assert(before[k] == x);
                let i = choose|i: int| 0 <= i < front.len() && (#[trigger] front[i]).contains(x);
                assert(s[i].contains(x));
            } else {
                assert(last[k - before.len()] == x);
                assert(s[s.len() - 1].contains(x));
            }
        }
        if exists|i: int| 0 <= i < s.len() && (#[trigger] s[i]).contains(x) {
            let i = choose|i: int| 0 <= i < s.len() && (#[trigger] s[i]).contains(x);
            if i < front.len() {
                assert(front[i].contains(x));
                let k = choose|k: int| 0 <= k < before.len() && before[k] == x;
                assert(flattened(s)[k] == x);
            } else {
                let k = choose|k: int| 0 <= k < last.len() && last[k] == x;
                assert(flattened(s)[before.len() + k] == x);
            }
        }
    }
}

/// What a sequence brings does not depend on where it stands among the others.
proof fn lemma_flattened_remove<T>(s: Seq<Seq<T>>, i: int)
    requires
        0 <= i < s.len(),
    ensures
        flattened(s).to_multiset() == flattened(s.remove(i)).to_multiset().add(s[i].to_multiset()),
    decreases s.len(),
{
    let front = s.drop_last();
    let last = s.last();
    vstd::seq_lib::lemma_multiset_commutative(flattened(front), last);
    if i == s.len() - 1 {
        assert(s.remove(i) =~= front);
    } else {
        let rest = front.remove(i);
        lemma_flattened_remove(front, i);
        assert(s.remove(i) =~= rest.push(last));
        assert(rest.push(last).drop_last() =~= rest);
        vstd::seq_lib::lemma_multiset_commutative(flattened(rest), last);
        assert(flattened(s).to_multiset() =~= flattened(s.remove(i)).to_multiset().add(
            s[i].to_multiset(),
        ));
    }
}

/// The same sequences in another order have the same elements.
pub proof fn lemma_flattened_multiset<T>(a: Seq<Seq<T>>, b: Seq<Seq<T>>)
    requires
        a.to_multiset() == b.to_multiset(),
    ensures
        flattened(a).to_multiset() == flattened(b).to_multiset(),
    decreases a.len(),
{
    broadcast use vstd::seq_lib::group_to_multiset_ensures;

    assert(a.len() == a.to_multiset().len() && b.len() == b.to_multiset().len());
    if a.len() > 0 {
        let n = a.len() - 1;
        assert(a.to_multiset().contains(a[n]));
        assert(b.contains(a[n]));
        let i = choose|i: int| 0 <= i < b.len() && b[i] == a[n];
        assert(a.remove(n).to_multiset() =~= b.remove(i).to_multiset());
        lemma_flattened_multiset(a.remove(n), b.remove(i));
        lemma_flattened_remove(a, n);
        lemma_flattened_remove(b, i);
    } else {
        assert(a =~= b);
    }
}

/// One element more in a prefix.
pub proof fn lemma_take_contains<T>(s: Seq<T>, i: int, x: T)
    requires
        0 <= i < s.len(),
    ensures
        s.take(i + 1).contains(x) <==> s.take(i).contains(x) || x == s[i],
{
    let shorter = s.take(i);
    let longer = s.take(i + 1);
    assert(longer[i] == s[i]);
    if shorter.contains(x) {
        let m = choose|m: int| 0 <= m < shorter.len() && shorter[m] == x;
        assert(longer[m] == x);
    }
    if longer.contains(x) {
        let m = choose|m: int| 0 <= m < longer.len() && longer[m] == x;
        if m < i {
            assert(shorter[m] == x);
        }
    }
}

/// The value, where there is one.
pub open spec fn present<T>(value: Option<T>) -> Seq<T> {
    match value {
        Some(value) => seq![value],
        None => Seq::empty(),
    }
}

/// The elements of a vector as a slice.
pub fn slice_of<T: DeepView>(items: &Vec<T>) -> (slice: &[T])
    ensures
        slice@ == items@,
        slice.deep_view() == items.deep_view(),
{
    let slice = items.as_slice();
    assert(slice.deep_view() =~= items.deep_view());
    slice
}

/// Puts an element behind the others.
pub fn push_item<T: DeepView>(items: &mut Vec<T>, item: T)
    ensures
        final(items)@ == old(items)@.push(item),
        final(items).deep_view() == old(items).deep_view().push(item.deep_view()),
{
    let ghost before = items.deep_view();
    items.push(item);
    assert(items.deep_view() =~= before.push(item.deep_view()));
}

/// Puts all elements of a list behind the others.
pub fn push_items<T: DeepView>(items: &mut Vec<T>, more: Vec<T>)
    ensures
        final(items)@ == old(items)@ + more@,
        final(items).deep_view() == old(items).deep_view() + more.deep_view(),
{
    let ghost before = items.deep_view();
    let mut more = more;
    let ghost added = more.deep_view();
    items.append(&mut more);
    assert(items.deep_view() =~= before + added);
}

/// One element more under a filter.
pub proof fn lemma_filter_step<T>(s: Seq<T>, kept: spec_fn(T) -> bool, i: int)
    requires
        0 <= i < s.len(),
    ensures
        s.take(i + 1).filter(kept) == if kept(s[i]) {
            s.take(i).filter(kept).push(s[i])
        } else {
            s.take(i).filter(kept)
        },
{
    reveal(Seq::filter);
    assert(s.take(i + 1).drop_last() =~= s.take(i));
    assert(s.take(i + 1).last() == s[i]);
}

/// What a filter keeps stands in the sequence and satisfies the condition;
/// what satisfies the condition is kept.
pub proof fn lemma_filter_contains<T>(s: Seq<T>, kept: spec_fn(T) -> bool)
    ensures
        forall|x: T| #[trigger] s.filter(kept).contains(x) <==> s.contains(x) && kept(x),
    decreases s.len(),
{
    reveal(Seq::filter);
    if s.len() > 0 {
        let front = s.drop_last();
        lemma_filter_contains(front, kept);
        assert(s =~= front.push(s.last()));
        let kept_front = front.filter(kept);
        assert forall|x: T| #[trigger] s.filter(kept).contains(x) <==> s.contains(x) && kept(x) by {
            if s.contains(x) && kept(x) {
                let i = choose|i: int| 0 <= i < s.len() && s[i] == x;
                if i < front.len() {
                    assert(front[i] == x);
                    assert(kept_front.contains(x));
                    let j = choose|j: int| 0 <= j < kept_front.len() && kept_front[j] == x;
                    assert(s.filter(kept)[j] == x);
                } else {
                    assert(s.filter(kept).last() == x);
                }
            }
            if s.filter(kept).contains(x) {
                let j = choose|j: int| 0 <= j < s.filter(kept).len() && s.filter(kept)[j] == x;
                if j < kept_front.len() {
                    assert(kept_front[j] == x);
                    assert(kept_front.contains(x));
                    let i = choose|i: int| 0 <= i < front.len() && front[i] == x;
                    assert(s[i] == x);
                } else {
                    assert(s.last() == x);
                }
            }
        }
    }
}

/// Two sequences with the same elements have the same elements under a
/// function.
pub proof fn lemma_mapped_multiset<T, U>(a: Seq<T>, b: Seq<T>, f: spec_fn(T) -> U)
    requires
        a.to_multiset() == b.to_multiset(),
    ensures
        a.map_values(f).to_multiset() == b.map_values(f).to_multiset(),
    decreases a.len(),
{
    broadcast use vstd::seq_lib::group_to_multiset_ensures;

    assert(a.len() == a.to_multiset().len() && b.len() == b.to_multiset().len());
    if a.len() == 0 {
        assert(a.map_values(f) =~= b.map_values(f));
    } else {
        let x = a.last();
        assert(a.to_multiset().contains(x));
        assert(b.contains(x));
        let i = choose|i: int| 0 <= i < b.len() && b[i] == x;
        let c = a.drop_last();
        let d = b.remove(i);
        assert(a =~= c.push(x));
        assert(c.to_multiset() =~= d.to_multiset());
        lemma_mapped_multiset(c, d, f);
        assert(a.map_values(f) =~= c.map_values(f).push(f(x)));
        assert(b.map_values(f) =~= d.map_values(f).insert(i, f(x)));
    }
}

} // verus!
