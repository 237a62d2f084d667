//! The content hash that the host supplies, and the keys made with it.

use vstd::prelude::*;

use crate::types::SEM_EMBEDDED_API_VERSION;

verus! {

/// What is asked of a content hash: it takes every text, and for the same
/// text it gives the same hash.
pub open spec fn is_content_hash<H: Fn(&str) -> String>(hash: H) -> bool {
    &&& forall|content: &str| #[trigger] call_requires(hash, (content,))
    &&& forall|a: &str, b: &str, x: String, y: String|
        a@ == b@ && #[trigger] call_ensures(hash, (a,), x) && #[trigger] call_ensures(
            hash,
            (b,),
            y,
        ) ==> x@ == y@
}

/// The hash of a text.
pub open spec fn digest<H: Fn(&str) -> String>(hash: H, content: Seq<char>) -> Seq<char> {
    (choose|text: &str, result: String|
        text@ == content && #[trigger] call_ensures(hash, (text,), result)).1@
}

/// Hashes a text.
pub fn content_hash<H: Fn(&str) -> String>(hash: &H, content: &str) -> (result: String)
    requires
        is_content_hash(*hash),
    ensures
        result@ == digest(*hash, content@),
{
    hash(content)
}

/// Hashes a text if there is one.
pub open spec fn digest_or_empty<H: Fn(&str) -> String>(
    hash: H,
    content: Option<Seq<char>>,
) -> Seq<char> {
    match content {
        Some(content) => digest(hash, content),
        None => Seq::empty(),
    }
}

pub fn content_hash_or_empty<H: Fn(&str) -> String>(hash: &H, content: &Option<String>) -> (result:
    String)
    requires
        is_content_hash(*hash),
    ensures
        result@ == digest_or_empty(*hash, content.deep_view()),
{
    match content {
        Some(content) => content_hash(hash, content.as_str()),
        None => String::new(),
    }
}

/// A text followed by parts, each behind a zero character.
pub open spec fn with_parts(start: Seq<char>, parts: Seq<Seq<char>>) -> Seq<char>
    decreases parts.len(),
{
    if parts.len() == 0 {
        start
    } else {
        with_parts(start, parts.drop_last()).push('\0') + parts.last()
    }
}

/// The text that a key is the hash of: the interface version, the kind of key
/// and its parts.
pub open spec fn key_text(kind: Seq<char>, parts: Seq<Seq<char>>) -> Seq<char> {
    with_parts(SEM_EMBEDDED_API_VERSION@, seq![kind] + parts)
}

/// The key of a kind with its parts.
pub open spec fn stable_key<H: Fn(&str) -> String>(
    hash: H,
    kind: Seq<char>,
    parts: Seq<Seq<char>>,
) -> Seq<char> {
    digest(hash, key_text(kind, parts))
}

/// Makes the key of a kind from its parts.
pub fn stable_cache_key<H: Fn(&str) -> String>(hash: &H, kind: &str, parts: &[String]) -> (key:
    String)
    requires
        is_content_hash(*hash),
    ensures
        key@ == stable_key(*hash, kind@, parts.deep_view()),
{
    let ghost all = seq![kind@] + parts.deep_view();
    let mut text = SEM_EMBEDDED_API_VERSION.to_string();
    text.push('\0');
    text.append(kind);
    let mut i: usize = 0;
    proof {
        assert(all.take(1).drop_last() =~= Seq::empty());
        reveal_with_fuel(with_parts, 2);
        assert(text@ == with_parts(SEM_EMBEDDED_API_VERSION@, all.take(1)));
    }
    while i < parts.len()
        invariant
            i <= parts@.len(),
            all == seq![kind@] + parts.deep_view(),
            text@ == with_parts(SEM_EMBEDDED_API_VERSION@, all.take(i + 1)),
        decreases parts@.len() - i,
    {
        text.push('\0');
        text.append(parts[i].as_str());
        assert(all.take(i + 2).drop_last() =~= all.take(i + 1));
        assert(all.take(i + 2).last() == parts@[i as int]@);
        i = i + 1;
    }
    assert(all.take(i + 1) =~= all);
    content_hash(hash, text.as_str())
}

// ---------------------------------------------------------------------------
// Laws

/// Whether a text holds no zero character.
pub open spec fn has_no_zero(text: Seq<char>) -> bool {
    forall|i: int| 0 <= i < text.len() ==> #[trigger] text[i] != '\0'
}

/// Whether no part holds a zero character.
pub open spec fn have_no_zero(parts: Seq<Seq<char>>) -> bool {
    forall|i: int| 0 <= i < parts.len() ==> has_no_zero(#[trigger] parts[i])
}

/// Texts behind the last zero character are told apart.
proof fn lemma_last_part(x: Seq<char>, p: Seq<char>, y: Seq<char>, q: Seq<char>)
    requires
        x.push('\0') + p == y.push('\0') + q,
        has_no_zero(p),
        has_no_zero(q),
    ensures
        x == y,
        p == q,
{
    let s = x.push('\0') + p;
    let t = y.push('\0') + q;
    let n = x.len() as int;
    let m = y.len() as int;
    assert(s.len() == n + 1 + p.len());
    assert(t.len() == m + 1 + q.len());
    assert(s[n] == '\0');
    assert(s[m] == '\0');
    if n < m {
        assert(s[m] == p[m - n - 1]);
    } else if m < n {
        assert(s[n] == q[n - m - 1]);
    }
    assert(x =~= s.take(n));
    assert(y =~= s.take(m));
    assert(p =~= s.skip(n + 1));
    assert(q =~= s.skip(m + 1));
}

proof fn lemma_with_parts(start: Seq<char>, a: Seq<Seq<char>>, b: Seq<Seq<char>>)
    requires
        has_no_zero(start),
        have_no_zero(a),
        have_no_zero(b),
        with_parts(start, a) == with_parts(start, b),
    ensures
        a == b,
    decreases a.len(),
{
    if a.len() == 0 && b.len() == 0 {
        assert(a =~= b);
    } else if a.len() == 0 {
        let inner = with_parts(start, b.drop_last());
        assert(with_parts(start, b)[inner.len() as int] == '\0');
    } else if b.len() == 0 {
        let inner = with_parts(start, a.drop_last());
        assert(with_parts(start, a)[inner.len() as int] == '\0');
    } else {
        let c = a.drop_last();
        let d = b.drop_last();
        assert(has_no_zero(a[a.len() - 1]));
        assert(has_no_zero(b[b.len() - 1]));
        lemma_last_part(with_parts(start, c), a.last(), with_parts(start, d), b.last());
        assert forall|i: int| 0 <= i < c.len() implies has_no_zero(#[trigger] c[i]) by {
            assert(has_no_zero(a[i]));
        }
        assert forall|i: int| 0 <= i < d.len() implies has_no_zero(#[trigger] d[i]) by {
            assert(has_no_zero(b[i]));
        }
        lemma_with_parts(start, c, d);
        assert(a =~= c.push(a.last()));
        assert(b =~= d.push(b.last()));
    }
}

/// What a key is the hash of tells kinds and parts apart, as long as they hold
/// no zero character: two keys are hashes of the same text only if they are of
/// the same kind and have the same parts.
pub proof fn law_key_text_tells_parts_apart(
    kind_a: Seq<char>,
    parts_a: Seq<Seq<char>>,
    kind_b: Seq<char>,
    parts_b: Seq<Seq<char>>,
)
    requires
        has_no_zero(kind_a),
        has_no_zero(kind_b),
        have_no_zero(parts_a),
        have_no_zero(parts_b),
        key_text(kind_a, parts_a) == key_text(kind_b, parts_b),
    ensures
        kind_a == kind_b,
        parts_a == parts_b,
{
    let a = seq![kind_a] + parts_a;
    let b = seq![kind_b] + parts_b;
    assert forall|i: int| 0 <= i < a.len() implies has_no_zero(#[trigger] a[i]) by {
        if i > 0 {
            assert(a[i] == parts_a[i - 1]);
        }
    }
    assert forall|i: int| 0 <= i < b.len() implies has_no_zero(#[trigger] b[i]) by {
        if i > 0 {
            assert(b[i] == parts_b[i - 1]);
        }
    }
    lemma_api_version();
    lemma_with_parts(SEM_EMBEDDED_API_VERSION@, a, b);
    assert(a[0] == kind_a && b[0] == kind_b);
    assert(parts_a =~= a.skip(1));
    assert(parts_b =~= b.skip(1));
}

proof fn lemma_api_version()
    ensures
        has_no_zero(SEM_EMBEDDED_API_VERSION@),
{
    reveal_strlit("sem-embedded-v1");
}

} // verus!
