//! Grouping what goes together, and cutting the groups into chunks.

use vstd::prelude::*;

use crate::collections::{
    group_at, increasing, lemma_listed, lemma_listed_exists, listed, StringMap,
};
use crate::order::{sorted_by, with_inserted, Key, Keyed, SortKey};
use crate::roles::{key_order, layer_order};
use crate::seqs::{flattened, push_item};

verus! {

/// Indices that go together under a key.
#[derive(Debug)]
pub struct LayerGroup {
    pub key: String,
    pub indices: Vec<usize>,
}

/// A [`LayerGroup`] as a mathematical value.
#[verifier::ext_equal]
pub struct GroupView {
    pub key: Seq<char>,
    pub indices: Seq<usize>,
}

impl DeepView for LayerGroup {
    type V = GroupView;

    open spec fn deep_view(&self) -> GroupView {
        GroupView {
            key: self.key.deep_view(),
            indices: self.indices.deep_view(),
        }
    }
}

impl Keyed for LayerGroup {
    /// Groups are sorted by where the layers of their keys stand, then by key.
    open spec fn key_of(value: GroupView) -> Key {
        Key {
            text: Seq::empty(),
            first: key_order(value.key) as int,
            second: 0,
            last: value.key,
        }
    }

    fn sort_key(&self) -> (key: SortKey) {
        SortKey {
            text: String::new(),
            first: layer_order(self.key.as_str()),
            second: 0,
            last: self.key.clone(),
        }
    }
}

// ---------------------------------------------------------------------------
// Groups

/// The indices below `n` that satisfy the condition, in order.
pub open spec fn indices_where(n: nat, wanted: spec_fn(int) -> bool) -> Seq<usize>
    decreases n,
{
    if n == 0 {
        Seq::empty()
    } else {
        let before = indices_where((n - 1) as nat, wanted);
        if wanted(n - 1) {
            before.push((n - 1) as usize)
        } else {
            before
        }
    }
}

/// The condition that an index has a key, or has none.
pub open spec fn has_key(keys: Seq<Option<Seq<char>>>, key: Option<Seq<char>>) -> spec_fn(
    int,
) -> bool {
    |i: int| keys[i] == key
}

/// The keys that occur.
pub open spec fn keys_present(keys: Seq<Option<Seq<char>>>) -> Set<Seq<char>> {
    Set::new(|key: Seq<char>| keys.contains(Some(key)))
}

/// The indices that have one key.
pub open spec fn group_of(keys: Seq<Option<Seq<char>>>) -> spec_fn(Seq<char>) -> GroupView {
    |key: Seq<char>|
        GroupView { key, indices: indices_where(keys.len(), has_key(keys, Some(key))) }
}

/// The indices in groups, one for each key, in the order of the keys. An index
/// without a key is in none.
pub open spec fn groups_of(keys: Seq<Option<Seq<char>>>) -> Seq<GroupView> {
    listed(keys_present(keys)).map_values(group_of(keys))
}

/// The indices that have no key.
pub open spec fn ungrouped(keys: Seq<Option<Seq<char>>>) -> Seq<usize> {
    indices_where(keys.len(), has_key(keys, None))
}

/// Puts the indices of a list of keys into groups, and those that have no key
/// into a list of their own.
pub fn group_indices(keys: &[Option<String>]) -> (grouped: (Vec<LayerGroup>, Vec<usize>))
    ensures
        grouped.0.deep_view() == groups_of(keys.deep_view()),
        grouped.1@ == ungrouped(keys.deep_view()),
{
    let ghost all = keys.deep_view();
    let mut map: StringMap<Vec<usize>> = StringMap::new();
    let mut rest: Vec<usize> = Vec::new();
    let mut i: usize = 0;
    assert(map.deep_view() =~= Map::empty());
    while i < keys.len()
        invariant
            i <= keys@.len(),
            all == keys.deep_view(),
            map.wf(),
            rest@ == indices_where(i as nat, has_key(all, None)),
            forall|key: Seq<char>|
                #![trigger map.deep_view().contains_key(key)]
                map.deep_view().contains_key(key) <==> all.take(i as int).contains(Some(key)),
            forall|key: Seq<char>|
                #![trigger group_at(map.deep_view(), key)]
                group_at(map.deep_view(), key) == indices_where(i as nat, has_key(all, Some(key))),
        decreases keys@.len() - i,
    {
        let ghost before = map.deep_view();
        assert(all[i as int] == keys@[i as int].deep_view());
        let ghost shorter = all.take(i as int);
        let ghost longer = all.take(i + 1);
        assert(longer =~= shorter.push(all[i as int]));
        match &keys[i] {
            Some(key) => {
                map.push_to(key.clone(), i);
                proof {
                    assert forall|k: Seq<char>|
                        #![trigger map.deep_view().contains_key(k)]
                        map.deep_view().contains_key(k) <==> longer.contains(Some(k)) by {
                        assert(before.contains_key(k) <==> shorter.contains(Some(k)));
                        if shorter.contains(Some(k)) {
                            let j = choose|j: int| 0 <= j < shorter.len() && shorter[j] == Some(k);
                            assert(longer[j] == Some(k));
                        }
                        if longer.contains(Some(k)) {
                            let j = choose|j: int| 0 <= j < longer.len() && longer[j] == Some(k);
                            if j < i {
                                assert(shorter[j] == Some(k));
                            }
                        }
                        assert(longer[i as int] == Some(key@));
                    }
                    assert forall|k: Seq<char>|
                        #![trigger group_at(map.deep_view(), k)]
                        group_at(map.deep_view(), k) == indices_where(
                            (i + 1) as nat,
                            has_key(all, Some(k)),
                        ) by {
                        assert(group_at(before, k) == indices_where(
                            i as nat,
                            has_key(all, Some(k)),
                        ));
                    }
                }
            },
            None => {
                rest.push(i);
                proof {
                    assert forall|k: Seq<char>|
                        #![trigger map.deep_view().contains_key(k)]
                        map.deep_view().contains_key(k) <==> longer.contains(Some(k)) by {
                        if shorter.contains(Some(k)) {
                            let j = choose|j: int| 0 <= j < shorter.len() && shorter[j] == Some(k);
                            assert(longer[j] == Some(k));
                        }
                        if longer.contains(Some(k)) {
                            let j = choose|j: int| 0 <= j < longer.len() && longer[j] == Some(k);
                            assert(shorter[j] == Some(k));
                        }
                    }
                }
            },
        }
        i = i + 1;
    }
    assert(all.take(i as int) =~= all);
    assert(map@.dom() =~= keys_present(all)) by {
        assert forall|k: Seq<char>| map@.dom().contains(k) <==> keys_present(all).contains(k) by {
            assert(map.deep_view().contains_key(k) <==> all.contains(Some(k)));
        }
    }
    let ghost names = listed(keys_present(all));
    let mut groups: Vec<LayerGroup> = Vec::new();
    let n: usize = map.len();
    let mut at: usize = 0;
    assert(groups.deep_view() =~= groups_of(all).take(0));
    while at < n
        invariant
            at <= n,
            n == names.len(),
            names == listed(map@.dom()),
            all == keys.deep_view(),
            names == listed(keys_present(all)),
            map.wf(),
            forall|key: Seq<char>|
                #![trigger group_at(map.deep_view(), key)]
                group_at(map.deep_view(), key) == indices_where(all.len(), has_key(all, Some(key))),
            groups.deep_view() == groups_of(all).take(at as int),
        decreases n - at,
    {
        let key = map.key_at(at).to_string();
        let indices: Vec<usize> = map.value_at(at).clone();
        proof {
            assert(map.deep_view().contains_key(key@));
            assert(indices.deep_view() =~= group_at(map.deep_view(), key@));
            assert(groups_of(all)[at as int] == group_of(all)(names[at as int]));
        }
        push_item(&mut groups, LayerGroup { key, indices });
        assert(groups.deep_view() =~= groups_of(all).take(at + 1));
        at = at + 1;
    }
    assert(groups_of(all).take(at as int) =~= groups_of(all));
    (groups, rest)
}

// ---------------------------------------------------------------------------
// Chunks

/// How many indices the next chunk takes.
pub open spec fn chunk_len(indices: Seq<usize>, size: nat) -> int {
    if size < indices.len() {
        size as int
    } else {
        indices.len() as int
    }
}

/// A group in chunks of a size, while there is room for chunks.
pub open spec fn group_chunks(indices: Seq<usize>, size: nat, room: nat) -> Seq<Seq<usize>>
    decreases room,
{
    if indices.len() == 0 || room == 0 {
        Seq::empty()
    } else {
        seq![indices.take(chunk_len(indices, size))] + group_chunks(
            indices.skip(chunk_len(indices, size)),
            size,
            (room - 1) as nat,
        )
    }
}

/// What there was no room for.
pub open spec fn group_rest(indices: Seq<usize>, size: nat, room: nat) -> Seq<usize>
    decreases room,
{
    if indices.len() == 0 || room == 0 {
        indices
    } else {
        group_rest(indices.skip(chunk_len(indices, size)), size, (room - 1) as nat)
    }
}

/// Chunks under the key of their group.
pub open spec fn under_key(key: Seq<char>, chunks: Seq<Seq<usize>>) -> Seq<GroupView> {
    chunks.map_values(|indices: Seq<usize>| GroupView { key, indices })
}

/// The groups in chunks of a size, one group after the other, while there is
/// room for chunks.
pub open spec fn chunks_of(groups: Seq<GroupView>, size: nat, room: nat) -> Seq<GroupView>
    decreases groups.len(),
{
    if groups.len() == 0 {
        Seq::empty()
    } else {
        let before = chunks_of(groups.drop_last(), size, room);
        before + under_key(
            groups.last().key,
            group_chunks(groups.last().indices, size, room_left(room, before)),
        )
    }
}

/// How many more chunks there is room for.
pub open spec fn room_left(room: nat, chunks: Seq<GroupView>) -> nat {
    if chunks.len() < room {
        (room - chunks.len()) as nat
    } else {
        0
    }
}

/// What there was no room for.
pub open spec fn rest_of(groups: Seq<GroupView>, size: nat, room: nat) -> Seq<usize>
    decreases groups.len(),
{
    if groups.len() == 0 {
        Seq::empty()
    } else {
        rest_of(groups.drop_last(), size, room) + group_rest(
            groups.last().indices,
            size,
            room_left(room, chunks_of(groups.drop_last(), size, room)),
        )
    }
}

fn numbers_between(numbers: &[usize], from: usize, to: usize) -> (part: Vec<usize>)
    requires
        from <= to <= numbers@.len(),
    ensures
        part@ == numbers@.subrange(from as int, to as int),
{
    let mut part: Vec<usize> = Vec::new();
    let mut i: usize = from;
    while i < to
        invariant
            from <= i <= to <= numbers@.len(),
            part@ == numbers@.subrange(from as int, i as int),
        decreases to - i,
    {
        part.push(numbers[i]);
        assert(part@ =~= numbers@.subrange(from as int, i + 1));
        i = i + 1;
    }
    part
}

/// Cuts groups into chunks of at most `size`, as long as there are fewer than
/// `room`, and returns what is left over beside them.
pub fn split_groups(groups: &[LayerGroup], size: usize, room: usize) -> (split: (
    Vec<LayerGroup>,
    Vec<usize>,
))
    requires
        size > 0,
    ensures
        split.0.deep_view() == chunks_of(groups.deep_view(), size as nat, room as nat),
        split.1@ == rest_of(groups.deep_view(), size as nat, room as nat),
{
    let ghost all = groups.deep_view();
    let ghost size_n = size as nat;
    let ghost room_n = room as nat;
    let mut chunks: Vec<LayerGroup> = Vec::new();
    let mut rest: Vec<usize> = Vec::new();
    let mut i: usize = 0;
    assert(chunks.deep_view() =~= chunks_of(all.take(0), size_n, room_n));
    assert(rest@ =~= rest_of(all.take(0), size_n, room_n));
    while i < groups.len()
        invariant
            size > 0,
            i <= groups@.len(),
            all == groups.deep_view(),
            size_n == size,
            room_n == room,
            chunks.deep_view() == chunks_of(all.take(i as int), size_n, room_n),
            rest@ == rest_of(all.take(i as int), size_n, room_n),
        decreases groups@.len() - i,
    {
        let group = &groups[i];
        let ghost indices = group.indices@;
        let ghost before = chunks.deep_view();
        let ghost left = room_left(room_n, before);
        let ghost mut made = Seq::<Seq<usize>>::empty();
        let mut start: usize = 0;
        assert(indices.skip(0) =~= indices);
        assert(chunks.deep_view() =~= before + under_key(group.key@, made));
        assert(group_chunks(indices, size_n, left) =~= made + group_chunks(indices, size_n, left));
        while start < group.indices.len() && chunks.len() < room
            invariant
                size > 0,
                size_n == size,
                room_n == room,
                start <= indices.len(),
                group.indices@ == indices,
                left == room_left(room_n, before),
                chunks.deep_view() == before + under_key(group.key@, made),
                group_chunks(indices, size_n, left) == made + group_chunks(
                    indices.skip(start as int),
                    size_n,
                    room_left(room_n, chunks.deep_view()),
                ),
                group_rest(indices, size_n, left) == group_rest(
                    indices.skip(start as int),
                    size_n,
                    room_left(room_n, chunks.deep_view()),
                ),
            decreases indices.len() - start,
        {
            let ghost pending = indices.skip(start as int);
            let ghost now = room_left(room_n, chunks.deep_view());
            let end: usize = if size < group.indices.len() - start {
                start + size
            } else {
                group.indices.len()
            };
            let chunk = numbers_between(group.indices.as_slice(), start, end);
            proof {
                assert(chunk_len(pending, size_n) == end - start);
                assert(chunk@ =~= pending.take(end - start));
                assert(pending.skip(end - start) =~= indices.skip(end as int));
                assert(chunk.deep_view() =~= chunk@);
            }
            let ghost next = made.push(chunk@);
            push_item(&mut chunks, LayerGroup { key: group.key.clone(), indices: chunk });
            proof {
                assert(chunks.deep_view() =~= before + under_key(group.key@, next));
                assert(room_left(room_n, chunks.deep_view()) == now - 1);
                assert(made + (seq![chunk@] + group_chunks(
                    indices.skip(end as int),
                    size_n,
                    (now - 1) as nat,
                )) =~= next + group_chunks(indices.skip(end as int), size_n, (now - 1) as nat));
                made = next;
            }
            start = end;
        }
        let tail = numbers_between(group.indices.as_slice(), start, group.indices.len());
        proof {
            assert(tail@ =~= indices.skip(start as int));
            assert(made + Seq::empty() =~= made);
            assert(group.deep_view().indices =~= indices);
            assert(all.take(i + 1).drop_last() =~= all.take(i as int));
            assert(all.take(i + 1).last() == group.deep_view());
        }
        let mut tail = tail;
        rest.append(&mut tail);
        i = i + 1;
    }
    assert(all.take(i as int) =~= all);
    (chunks, rest)
}

// ---------------------------------------------------------------------------
// Nothing is lost and nothing is doubled

/// All indices of a list of groups.
pub open spec fn spread(groups: Seq<GroupView>) -> Seq<usize> {
    flattened(groups.map_values(|group: GroupView| group.indices))
}

proof fn lemma_spread_push(groups: Seq<GroupView>, group: GroupView)
    ensures
        spread(groups.push(group)) == spread(groups) + group.indices,
{
    let f = |group: GroupView| group.indices;
    let longer = groups.push(group).map_values(f);
    assert(longer.drop_last() =~= groups.map_values(f));
    assert(longer.last() == group.indices);
}

proof fn lemma_spread_concat(a: Seq<GroupView>, b: Seq<GroupView>)
    ensures
        spread(a + b) == spread(a) + spread(b),
    decreases b.len(),
{
    if b.len() == 0 {
        assert(a + b =~= a);
        assert(spread(b) =~= Seq::empty());
        assert(spread(a) + spread(b) =~= spread(a));
    } else {
        let c = b.drop_last();
        lemma_spread_concat(a, c);
        assert(b =~= c.push(b.last()));
        assert(a + b =~= (a + c).push(b.last()));
        lemma_spread_push(a + c, b.last());
        lemma_spread_push(c, b.last());
        assert(spread(a) + spread(c) + b.last().indices =~= spread(a) + (spread(c)
            + b.last().indices));
    }
}

proof fn lemma_group_chunks(key: Seq<char>, indices: Seq<usize>, size: nat, room: nat)
    requires
        size > 0,
    ensures
        group_chunks(indices, size, room).len() <= room,
        group_rest(indices, size, room).len() > 0 ==> group_chunks(indices, size, room).len() == room,
        spread(under_key(key, group_chunks(indices, size, room))) + group_rest(indices, size, room)
            == indices,
        forall|i: int|
            0 <= i < group_chunks(indices, size, room).len() ==> 0 < (#[trigger] group_chunks(
                indices,
                size,
                room,
            )[i]).len() <= size,
    decreases room,
{
    let chunks = group_chunks(indices, size, room);
    if indices.len() == 0 || room == 0 {
        assert(under_key(key, chunks) =~= Seq::empty());
        assert(spread(under_key(key, chunks)) =~= Seq::empty());
        assert(Seq::<usize>::empty() + indices =~= indices);
    } else {
        let n = chunk_len(indices, size);
        let first = indices.take(n);
        let rest = indices.skip(n);
        let later = group_chunks(rest, size, (room - 1) as nat);
        lemma_group_chunks(key, rest, size, (room - 1) as nat);
        assert(under_key(key, chunks) =~= seq![GroupView { key, indices: first }] + under_key(
            key,
            later,
        ));
        lemma_spread_concat(seq![GroupView { key, indices: first }], under_key(key, later));
        lemma_spread_push(Seq::empty(), GroupView { key, indices: first });
        assert(Seq::<GroupView>::empty().push(GroupView { key, indices: first }) =~= seq![
            GroupView { key, indices: first },
        ]);
        assert(spread(Seq::empty()) =~= Seq::empty());
        assert(Seq::<usize>::empty() + first =~= first);
        let tail = group_rest(rest, size, (room - 1) as nat);
        assert(first + spread(under_key(key, later)) + tail =~= first + (spread(
            under_key(key, later),
        ) + tail));
        assert(first + rest =~= indices);
        assert forall|i: int| 0 <= i < chunks.len() implies 0 < (#[trigger] chunks[i]).len()
            <= size by {
            if i > 0 {
                assert(chunks[i] == later[i - 1]);
            }
        }
    }
}

/// Cutting groups into chunks keeps within the room and the size, leaves no
/// chunk empty, loses no index, doubles none, and leaves indices over only
/// where there is no room for another chunk.
pub proof fn lemma_chunks(groups: Seq<GroupView>, size: nat, room: nat)
    requires
        size > 0,
    ensures
        chunks_of(groups, size, room).len() <= room,
        rest_of(groups, size, room).len() > 0 ==> chunks_of(groups, size, room).len() == room,
        (spread(chunks_of(groups, size, room)) + rest_of(groups, size, room)).to_multiset()
            == spread(groups).to_multiset(),
        forall|i: int|
            0 <= i < chunks_of(groups, size, room).len() ==> 0 < (#[trigger] chunks_of(
                groups,
                size,
                room,
            )[i]).indices.len() <= size,
    decreases groups.len(),
{
    broadcast use vstd::seq_lib::group_to_multiset_ensures;

    let chunks = chunks_of(groups, size, room);
    let rest = rest_of(groups, size, room);
    if groups.len() == 0 {
        assert(spread(chunks) =~= Seq::empty());
        assert(spread(groups) =~= Seq::empty());
        assert(spread(chunks) + rest =~= Seq::empty());
    } else {
        let front = groups.drop_last();
        let last = groups.last();
        let before = chunks_of(front, size, room);
        let before_rest = rest_of(front, size, room);
        let left = room_left(room, before);
        let cut = group_chunks(last.indices, size, left);
        let cut_rest = group_rest(last.indices, size, left);
        lemma_chunks(front, size, room);
        lemma_group_chunks(last.key, last.indices, size, left);
        lemma_spread_concat(before, under_key(last.key, cut));
        assert(groups =~= front.push(last));
        lemma_spread_push(front, last);
        let a = spread(before);
        let b = spread(under_key(last.key, cut));
        vstd::seq_lib::lemma_multiset_commutative(a, before_rest);
        vstd::seq_lib::lemma_multiset_commutative(b, cut_rest);
        vstd::seq_lib::lemma_multiset_commutative(spread(front), last.indices);
        vstd::seq_lib::lemma_multiset_commutative(a, b);
        vstd::seq_lib::lemma_multiset_commutative(before_rest, cut_rest);
        vstd::seq_lib::lemma_multiset_commutative(a + b, before_rest + cut_rest);
        assert((spread(chunks) + rest).to_multiset() =~= spread(groups).to_multiset());
        assert forall|i: int| 0 <= i < chunks.len() implies 0 < (#[trigger] chunks[i]).indices.len()
            <= size by {
            if i < before.len() {
                assert(chunks[i] == before[i]);
            } else {
                assert(chunks[i].indices == cut[i - before.len()]);
            }
        }
    }
}

proof fn lemma_spread_inserted(
    groups: Seq<GroupView>,
    group: GroupView,
    key: spec_fn(GroupView) -> Key,
)
    ensures
        spread(with_inserted(groups, group, key)).to_multiset() == (spread(groups)
            + group.indices).to_multiset(),
    decreases groups.len(),
{
    broadcast use vstd::seq_lib::group_to_multiset_ensures;

    lemma_spread_push(groups, group);
    if groups.len() > 0 {
        let front = groups.drop_last();
        let inner = with_inserted(front, group, key);
        lemma_spread_inserted(front, group, key);
        lemma_spread_push(inner, groups.last());
        assert(groups =~= front.push(groups.last()));
        lemma_spread_push(front, groups.last());
        vstd::seq_lib::lemma_multiset_commutative(spread(inner), groups.last().indices);
        vstd::seq_lib::lemma_multiset_commutative(spread(front), group.indices);
        vstd::seq_lib::lemma_multiset_commutative(spread(front), groups.last().indices);
        vstd::seq_lib::lemma_multiset_commutative(spread(groups), group.indices);
        assert((spread(inner) + groups.last().indices).to_multiset() =~= (spread(groups)
            + group.indices).to_multiset());
    }
}

/// Sorting groups loses no index and doubles none.
pub proof fn lemma_spread_sorted(groups: Seq<GroupView>, key: spec_fn(GroupView) -> Key)
    ensures
        spread(sorted_by(groups, key)).to_multiset() == spread(groups).to_multiset(),
    decreases groups.len(),
{
    broadcast use vstd::seq_lib::group_to_multiset_ensures;

    if groups.len() > 0 {
        let front = groups.drop_last();
        let sorted = sorted_by(front, key);
        lemma_spread_sorted(front, key);
        lemma_spread_inserted(sorted, groups.last(), key);
        assert(groups =~= front.push(groups.last()));
        lemma_spread_push(front, groups.last());
        vstd::seq_lib::lemma_multiset_commutative(spread(sorted), groups.last().indices);
        vstd::seq_lib::lemma_multiset_commutative(spread(front), groups.last().indices);
    } else {
        assert(sorted_by(groups, key) =~= groups);
    }
}

/// The indices found satisfy the condition.
pub proof fn lemma_indices_where(n: nat, wanted: spec_fn(int) -> bool, k: int)
    requires
        n <= usize::MAX,
        0 <= k < indices_where(n, wanted).len(),
    ensures
        indices_where(n, wanted)[k] < n,
        wanted(indices_where(n, wanted)[k] as int),
    decreases n,
{
    let m = (n - 1) as nat;
    if k < indices_where(m, wanted).len() {
        lemma_indices_where(m, wanted, k);
    }
}

proof fn lemma_indices_where_count(n: nat, wanted: spec_fn(int) -> bool, v: usize)
    requires
        n <= usize::MAX,
    ensures
        indices_where(n, wanted).to_multiset().count(v) == if v < n && wanted(v as int) {
            1nat
        } else {
            0nat
        },
    decreases n,
{
    broadcast use vstd::seq_lib::group_to_multiset_ensures;

    if n > 0 {
        lemma_indices_where_count((n - 1) as nat, wanted, v);
    }
}

/// All indices below `n`, in order.
pub open spec fn indices_below(n: nat) -> Seq<usize> {
    indices_where(n, |i: int| true)
}

proof fn lemma_groups_count(keys: Seq<Option<Seq<char>>>, names: Seq<Seq<char>>, v: usize)
    requires
        keys.len() <= usize::MAX,
        names.no_duplicates(),
    ensures
        spread(names.map_values(group_of(keys))).to_multiset().count(v) == if v < keys.len()
            && keys[v as int] is Some && names.contains(keys[v as int]->0) {
            1nat
        } else {
            0nat
        },
    decreases names.len(),
{
    broadcast use vstd::seq_lib::group_to_multiset_ensures;

    let groups = names.map_values(group_of(keys));
    if names.len() == 0 {
        assert(spread(groups) =~= Seq::empty());
    } else {
        let front = names.drop_last();
        let last = names.last();
        assert forall|i: int, j: int| 0 <= i < front.len() && 0 <= j < front.len() && i != j implies front[i]
            != front[j] by {
            assert(names[i] != names[j]);
        }
        lemma_groups_count(keys, front, v);
        let group = group_of(keys)(last);
        assert(groups =~= front.map_values(group_of(keys)).push(group));
        lemma_spread_push(front.map_values(group_of(keys)), group);
        vstd::seq_lib::lemma_multiset_commutative(
            spread(front.map_values(group_of(keys))),
            group.indices,
        );
        lemma_indices_where_count(keys.len(), has_key(keys, Some(last)), v);
        if v < keys.len() && keys[v as int] is Some {
            let key = keys[v as int]->0;
            if front.contains(key) {
                let i = choose|i: int| 0 <= i < front.len() && front[i] == key;
                assert(names[i] == key);
                assert(names[i] != names[names.len() - 1]);
            }
            if names.contains(key) && key != last {
                let i = choose|i: int| 0 <= i < names.len() && names[i] == key;
                assert(front[i] == key);
            }
            if key == last {
                assert(names[names.len() - 1] == key);
            }
        }
    }
}

/// Every index is in one group or, having no key, in none: no index is lost
/// and none is doubled.
pub proof fn lemma_groups_partition(keys: Seq<Option<Seq<char>>>)
    requires
        keys.len() <= usize::MAX,
    ensures
        (spread(groups_of(keys)) + ungrouped(keys)).to_multiset() == indices_below(
            keys.len(),
        ).to_multiset(),
{
    broadcast use vstd::seq_lib::group_to_multiset_ensures;

    let names = listed(keys_present(keys));
    lemma_keys_finite(keys);
    lemma_listed_exists(keys_present(keys));
    lemma_listed(names);
    vstd::seq_lib::lemma_multiset_commutative(spread(groups_of(keys)), ungrouped(keys));
    assert forall|v: usize|
        (spread(groups_of(keys)) + ungrouped(keys)).to_multiset().count(v) == indices_below(
            keys.len(),
        ).to_multiset().count(v) by {
        lemma_groups_count(keys, names, v);
        lemma_indices_where_count(keys.len(), has_key(keys, None), v);
        lemma_indices_where_count(keys.len(), |i: int| true, v);
        if v < keys.len() {
            match keys[v as int] {
                Some(key) => {
                    assert(keys.contains(Some(key)));
                    assert(keys_present(keys).contains(key));
                    assert(names.to_set().contains(key));
                },
                None => {},
            }
        }
    }
    assert((spread(groups_of(keys)) + ungrouped(keys)).to_multiset() =~= indices_below(
        keys.len(),
    ).to_multiset());
}

/// There are finitely many keys.
pub proof fn lemma_keys_finite(keys: Seq<Option<Seq<char>>>)
    ensures
        keys_present(keys).finite(),
    decreases keys.len(),
{
    if keys.len() == 0 {
        assert(keys_present(keys) =~= Set::empty());
    } else {
        let front = keys.drop_last();
        lemma_keys_finite(front);
        assert(keys =~= front.push(keys.last()));
        let more = match keys.last() {
            Some(key) => keys_present(front).insert(key),
            None => keys_present(front),
        };
        assert forall|key: Seq<char>| keys_present(keys).contains(key) <==> more.contains(key) by {
            if keys.contains(Some(key)) {
                let i = choose|i: int| 0 <= i < keys.len() && keys[i] == Some(key);
                if i < front.len() {
                    assert(front[i] == Some(key));
                }
            }
            if front.contains(Some(key)) {
                let i = choose|i: int| 0 <= i < front.len() && front[i] == Some(key);
                assert(keys[i] == Some(key));
            }
            assert(keys[keys.len() - 1] == keys.last());
        }
        assert(keys_present(keys) =~= more);
    }
}

/// What a group holds is among all indices.
pub proof fn lemma_spread_contains(chunks: Seq<GroupView>, at: int, i: int)
    requires
        0 <= at < chunks.len(),
        0 <= i < chunks[at].indices.len(),
    ensures
        spread(chunks).contains(chunks[at].indices[i]),
    decreases chunks.len(),
{
    let all = chunks.map_values(|group: GroupView| group.indices);
    let front = chunks.drop_last();
    assert(all.drop_last() =~= front.map_values(|group: GroupView| group.indices));
    let v = chunks[at].indices[i];
    if at < front.len() {
        lemma_spread_contains(front, at, i);
        let k = choose|k: int| 0 <= k < spread(front).len() && spread(front)[k] == v;
        assert(spread(chunks)[k] == v);
    } else {
        assert(spread(chunks)[spread(front).len() + i] == v);
    }
}

/// The indices below a number are the numbers below it.
pub proof fn lemma_indices_below(n: nat, v: usize)
    requires
        n <= usize::MAX,
    ensures
        indices_below(n).contains(v) <==> v < n,
    decreases n,
{
    if n > 0 {
        let m = (n - 1) as nat;
        lemma_indices_below(m, v);
        assert(indices_below(n) =~= indices_below(m).push(m as usize));
        if v < m {
            let k = choose|k: int| 0 <= k < indices_below(m).len() && indices_below(m)[k] == v;
            assert(indices_below(n)[k] == v);
        } else if v == m {
            assert(indices_below(n)[indices_below(m).len() as int] == v);
        }
        if indices_below(n).contains(v) {
            let k = choose|k: int| 0 <= k < indices_below(n).len() && indices_below(n)[k] == v;
            if k < indices_below(m).len() {
                assert(indices_below(m)[k] == v);
            }
        }
    }
}

/// The indices in groups are those that have a key.
pub proof fn lemma_grouped(keys: Seq<Option<Seq<char>>>, v: usize)
    requires
        keys.len() <= usize::MAX,
    ensures
        spread(groups_of(keys)).contains(v) <==> v < keys.len() && keys[v as int] is Some,
{
    broadcast use vstd::seq_lib::group_to_multiset_ensures;

    let names = listed(keys_present(keys));
    lemma_keys_finite(keys);
    lemma_listed_exists(keys_present(keys));
    lemma_listed(names);
    lemma_groups_count(keys, names, v);
    if v < keys.len() && keys[v as int] is Some {
        let key = keys[v as int]->0;
        assert(keys.contains(Some(key)));
        assert(keys_present(keys).contains(key));
        assert(names.to_set().contains(key));
    }
}

/// The indices in chunks and those left over are the indices in the groups.
pub proof fn lemma_chunked(groups: Seq<GroupView>, size: nat, room: nat, v: usize)
    requires
        size > 0,
    ensures
        spread(groups).contains(v) <==> spread(chunks_of(groups, size, room)).contains(v)
            || rest_of(groups, size, room).contains(v),
{
    broadcast use vstd::seq_lib::group_to_multiset_ensures;

    let inside = spread(chunks_of(groups, size, room));
    let rest = rest_of(groups, size, room);
    lemma_chunks(groups, size, room);
    assert(spread(groups).contains(v) <==> (inside + rest).contains(v)) by {
        assert(spread(groups).contains(v) <==> spread(groups).to_multiset().contains(v));
        assert((inside + rest).contains(v) <==> (inside + rest).to_multiset().contains(v));
    }
    if inside.contains(v) {
        let k = choose|k: int| 0 <= k < inside.len() && inside[k] == v;
        assert((inside + rest)[k] == v);
    }
    if rest.contains(v) {
        let k = choose|k: int| 0 <= k < rest.len() && rest[k] == v;
        assert((inside + rest)[inside.len() + k] == v);
    }
    if (inside + rest).contains(v) {
        let k = choose|k: int| 0 <= k < (inside + rest).len() && (inside + rest)[k] == v;
        if k < inside.len() {
            assert(inside[k] == v);
        } else {
            assert(rest[k - inside.len()] == v);
        }
    }
}

/// What is among all indices is in one of the groups.
pub proof fn lemma_spread_found(groups: Seq<GroupView>, v: usize) -> (i: int)
    requires
        spread(groups).contains(v),
    ensures
        0 <= i < groups.len(),
        groups[i].indices.contains(v),
    decreases groups.len(),
{
    let all = groups.map_values(|group: GroupView| group.indices);
    let k = choose|k: int| 0 <= k < spread(groups).len() && spread(groups)[k] == v;
    let front = groups.drop_last();
    assert(all.drop_last() =~= front.map_values(|group: GroupView| group.indices));
    if k < spread(front).len() {
        assert(spread(front)[k] == v);
        lemma_spread_found(front, v)
    } else {
        assert(groups.last().indices[k - spread(front).len()] == v);
        groups.len() - 1
    }
}

// ---------------------------------------------------------------------------
// Where chunks come from

/// The indices that satisfy a condition are in order, and all of them are there.
pub proof fn lemma_indices_in_order(n: nat, wanted: spec_fn(int) -> bool)
    requires
        n <= usize::MAX,
    ensures
        increasing(indices_where(n, wanted)),
        forall|v: usize| #[trigger]
            indices_where(n, wanted).contains(v) <==> v < n && wanted(v as int),
    decreases n,
{
    if n > 0 {
        let m = (n - 1) as nat;
        let before = indices_where(m, wanted);
        let all = indices_where(n, wanted);
        lemma_indices_in_order(m, wanted);
        assert forall|i: int, j: int| 0 <= i < j < all.len() implies #[trigger] all[i]
            < #[trigger] all[j] by {
            if j < before.len() {
                assert(before[i] < before[j]);
            } else {
                assert(before.contains(before[i]));
            }
        }
        assert forall|v: usize| #[trigger] all.contains(v) <==> v < n && wanted(v as int) by {
            if all.contains(v) {
                let k = choose|k: int| 0 <= k < all.len() && all[k] == v;
                if k < before.len() {
                    assert(before.contains(before[k]));
                }
            }
            if v < n && wanted(v as int) {
                if v < m {
                    assert(before.contains(v));
                    let k = choose|k: int| 0 <= k < before.len() && before[k] == v;
                    assert(all[k] == v);
                } else {
                    assert(all[all.len() - 1] == v);
                }
            }
        }
    }
}

/// The chunks of a group hold its indices in order, and every chunk but the last
/// is full.
proof fn lemma_chunks_of_group(
    indices: Seq<usize>,
    size: nat,
    room: nat,
    k: int,
    m: int,
    a: int,
    b: int,
)
    requires
        increasing(indices),
        size > 0,
        0 <= k <= m < group_chunks(indices, size, room).len(),
        0 <= a < group_chunks(indices, size, room)[k].len(),
        0 <= b < group_chunks(indices, size, room)[m].len(),
    ensures
        indices.contains(group_chunks(indices, size, room)[k][a]),
        indices.contains(group_chunks(indices, size, room)[m][b]),
        k < m || a < b ==> group_chunks(indices, size, room)[k][a] < group_chunks(
            indices,
            size,
            room,
        )[m][b],
        k < m ==> group_chunks(indices, size, room)[k].len() == size,
    decreases room,
{
    let chunks = group_chunks(indices, size, room);
    let n = chunk_len(indices, size);
    let first = indices.take(n);
    let rest = indices.skip(n);
    let later = group_chunks(rest, size, (room - 1) as nat);
    assert(increasing(rest)) by {
        assert forall|i: int, j: int| 0 <= i < j < rest.len() implies #[trigger] rest[i]
            < #[trigger] rest[j] by {
            assert(indices[n + i] < indices[n + j]);
        }
    }
    if k == 0 {
        assert(chunks[0] == first);
        assert(indices[a] == first[a]);
    } else {
        assert(chunks[k] == later[k - 1]);
    }
    if m > 0 {
        assert(chunks[m] == later[m - 1]);
        if k > 0 {
            lemma_chunks_of_group(rest, size, (room - 1) as nat, k - 1, m - 1, a, b);
            let p = choose|p: int| 0 <= p < rest.len() && rest[p] == chunks[k][a];
            assert(indices[n + p] == chunks[k][a]);
        } else {
            lemma_chunks_of_group(rest, size, (room - 1) as nat, m - 1, m - 1, b, b);
        }
        let q = choose|q: int| 0 <= q < rest.len() && rest[q] == chunks[m][b];
        assert(indices[n + q] == chunks[m][b]);
        if k == 0 {
            assert(indices[a] < indices[n + q]);
        }
    } else {
        assert(indices[b] == first[b]);
        if a < b {
            assert(indices[a] < indices[b]);
        }
    }
}

/// Two chunks come from groups in their order. Chunks of one group hold its
/// indices in order, and all but its last are full.
pub proof fn lemma_chunk_pair(
    groups: Seq<GroupView>,
    size: nat,
    room: nat,
    i: int,
    j: int,
    a: int,
    b: int,
) -> (from: (int, int))
    requires
        forall|g: int| 0 <= g < groups.len() ==> increasing((#[trigger] groups[g]).indices),
        size > 0,
        0 <= i <= j < chunks_of(groups, size, room).len(),
        0 <= a < chunks_of(groups, size, room)[i].indices.len(),
        0 <= b < chunks_of(groups, size, room)[j].indices.len(),
    ensures
        0 <= from.0 <= from.1 < groups.len(),
        chunks_of(groups, size, room)[i].key == groups[from.0].key,
        chunks_of(groups, size, room)[j].key == groups[from.1].key,
        groups[from.0].indices.contains(chunks_of(groups, size, room)[i].indices[a]),
        groups[from.1].indices.contains(chunks_of(groups, size, room)[j].indices[b]),
        i == j ==> from.0 == from.1,
        from.0 == from.1 && (i < j || a < b) ==> chunks_of(groups, size, room)[i].indices[a]
            < chunks_of(groups, size, room)[j].indices[b],
        from.0 == from.1 && i < j ==> chunks_of(groups, size, room)[i].indices.len() == size,
    decreases groups.len(),
{
    let front = groups.drop_last();
    let last = groups.last();
    let before = chunks_of(front, size, room);
    let left = room_left(room, before);
    let cut = group_chunks(last.indices, size, left);
    let all = chunks_of(groups, size, room);
    let n = groups.len() - 1;
    assert forall|g: int| 0 <= g < front.len() implies increasing((#[trigger] front[g]).indices) by {
        assert(increasing(groups[g].indices));
    }
    assert(increasing(groups[n].indices));
    if j < before.len() {
        assert(all[i] == before[i] && all[j] == before[j]);
        lemma_chunk_pair(front, size, room, i, j, a, b)
    } else if i < before.len() {
        assert(all[i] == before[i]);
        let from = lemma_chunk_pair(front, size, room, i, i, a, a);
        let m = j - before.len();
        assert(all[j] == under_key(last.key, cut)[m]);
        lemma_chunks_of_group(last.indices, size, left, m, m, b, b);
        (from.0, n)
    } else {
        let k = i - before.len();
        let m = j - before.len();
        assert(all[i] == under_key(last.key, cut)[k]);
        assert(all[j] == under_key(last.key, cut)[m]);
        lemma_chunks_of_group(last.indices, size, left, k, m, a, b);
        (n, n)
    }
}

/// What there was no room for comes from a group.
pub proof fn lemma_rest_comes_last(groups: Seq<GroupView>, size: nat, room: nat, k: int) -> (g: int)
    requires
        size > 0,
        0 <= k < rest_of(groups, size, room).len(),
    ensures
        0 <= g < groups.len(),
        groups[g].indices.contains(rest_of(groups, size, room)[k]),
    decreases groups.len(),
{
    let front = groups.drop_last();
    let last = groups.last();
    let before = rest_of(front, size, room);
    let left = room_left(room, chunks_of(front, size, room));
    let tail = group_rest(last.indices, size, left);
    if k < before.len() {
        lemma_rest_comes_last(front, size, room, k)
    } else {
        let v = tail[k - before.len()];
        lemma_group_chunks(last.key, last.indices, size, left);
        let placed = spread(under_key(last.key, group_chunks(last.indices, size, left)));
        assert((placed + tail)[placed.len() + k - before.len()] == v);
        assert(last.indices.contains(v));
        groups.len() - 1
    }
}

/// In a group, what there was no room for stands behind what is in a chunk.
proof fn lemma_rest_of_group(
    indices: Seq<usize>,
    size: nat,
    room: nat,
    k: int,
    a: int,
    b: int,
)
    requires
        increasing(indices),
        size > 0,
        0 <= k < group_chunks(indices, size, room).len(),
        0 <= a < group_chunks(indices, size, room)[k].len(),
        0 <= b < group_rest(indices, size, room).len(),
    ensures
        group_chunks(indices, size, room)[k][a] < group_rest(indices, size, room)[b],
    decreases room,
{
    let n = chunk_len(indices, size);
    let rest = indices.skip(n);
    let later = group_chunks(rest, size, (room - 1) as nat);
    assert(increasing(rest)) by {
        assert forall|i: int, j: int| 0 <= i < j < rest.len() implies #[trigger] rest[i]
            < #[trigger] rest[j] by {
            assert(indices[n + i] < indices[n + j]);
        }
    }
    if k > 0 {
        assert(group_chunks(indices, size, room)[k] == later[k - 1]);
        lemma_rest_of_group(rest, size, (room - 1) as nat, k - 1, a, b);
    } else {
        let key = Seq::<char>::empty();
        let tail = group_rest(rest, size, (room - 1) as nat);
        lemma_group_chunks(key, rest, size, (room - 1) as nat);
        let placed = spread(under_key(key, later));
        assert((placed + tail)[placed.len() + b] == tail[b]);
        let q = placed.len() + b;
        assert(rest[q] == tail[b]);
        assert(indices[n + q] == tail[b]);
        assert(indices[a] < indices[n + q]);
    }
}

/// What there was no room for comes from no earlier group than what is in a
/// chunk, and in the same group from behind it.
pub proof fn lemma_rest_after_chunk(
    groups: Seq<GroupView>,
    size: nat,
    room: nat,
    i: int,
    a: int,
    k: int,
) -> (from: (int, int))
    requires
        forall|g: int| 0 <= g < groups.len() ==> increasing((#[trigger] groups[g]).indices),
        size > 0,
        0 <= i < chunks_of(groups, size, room).len(),
        0 <= a < chunks_of(groups, size, room)[i].indices.len(),
        0 <= k < rest_of(groups, size, room).len(),
    ensures
        0 <= from.0 <= from.1 < groups.len(),
        groups[from.0].indices.contains(chunks_of(groups, size, room)[i].indices[a]),
        groups[from.1].indices.contains(rest_of(groups, size, room)[k]),
        from.0 == from.1 ==> chunks_of(groups, size, room)[i].indices[a] < rest_of(
            groups,
            size,
            room,
        )[k],
    decreases groups.len(),
{
    let front = groups.drop_last();
    let last = groups.last();
    let before = chunks_of(front, size, room);
    let before_rest = rest_of(front, size, room);
    let left = room_left(room, before);
    let cut = group_chunks(last.indices, size, left);
    let all = chunks_of(groups, size, room);
    let n = groups.len() - 1;
    assert forall|g: int| 0 <= g < front.len() implies increasing((#[trigger] front[g]).indices) by {
        assert(increasing(groups[g].indices));
    }
    assert(increasing(groups[n].indices));
    lemma_chunks(front, size, room);
    if k < before_rest.len() {
        assert(left == 0);
        assert(all[i] == before[i]);
        lemma_rest_after_chunk(front, size, room, i, a, k)
    } else {
        let tail = group_rest(last.indices, size, left);
        let v = tail[k - before_rest.len()];
        lemma_group_chunks(last.key, last.indices, size, left);
        let placed = spread(under_key(last.key, cut));
        assert((placed + tail)[placed.len() + k - before_rest.len()] == v);
        assert(last.indices.contains(v));
        if i < before.len() {
            assert(all[i] == before[i]);
            let from = lemma_chunk_pair(front, size, room, i, i, a, a);
            (from.0, n)
        } else {
            let m = i - before.len();
            assert(all[i] == under_key(last.key, cut)[m]);
            lemma_chunks_of_group(last.indices, size, left, m, m, a, a);
            lemma_rest_of_group(last.indices, size, left, m, a, k - before_rest.len());
            (n, n)
        }
    }
}

/// A group holds the indices with its key in order, and no two groups have the
/// same key.
pub proof fn lemma_groups(keys: Seq<Option<Seq<char>>>, groups: Seq<GroupView>, g: int, h: int)
    requires
        keys.len() <= usize::MAX,
        groups.to_multiset() == groups_of(keys).to_multiset(),
        0 <= g < groups.len(),
        0 <= h < groups.len(),
    ensures
        increasing(groups[g].indices),
        forall|v: usize| #[trigger]
            groups[g].indices.contains(v) <==> v < keys.len() && keys[v as int] == Some(
                groups[g].key,
            ),
        groups[g].key == groups[h].key ==> g == h,
{
    broadcast use vstd::seq_lib::group_to_multiset_ensures;

    let names = listed(keys_present(keys));
    let made = groups_of(keys);
    lemma_keys_finite(keys);
    lemma_listed_exists(keys_present(keys));
    lemma_listed(names);
    assert(made.no_duplicates()) by {
        assert forall|i: int, j: int|
            0 <= i < made.len() && 0 <= j < made.len() && i != j implies made[i] != made[j] by {
            assert(made[i].key == names[i] && made[j].key == names[j]);
        }
    }
    made.lemma_multiset_has_no_duplicates();
    groups.lemma_multiset_has_no_duplicates_conv();
    assert forall|x: int| 0 <= x < groups.len() implies #[trigger] groups[x] == group_of(keys)(
        groups[x].key,
    ) by {
        assert(groups.to_multiset().contains(groups[x]));
        assert(made.contains(groups[x]));
    }
    lemma_indices_in_order(keys.len(), has_key(keys, Some(groups[g].key)));
    assert(groups[g] == group_of(keys)(groups[g].key));
    assert(groups[h] == group_of(keys)(groups[h].key));
}

} // verus!
