//! What the JSON text of a target tells apart.

use vstd::prelude::*;

use crate::json::{
    hex_digit, json_entity_target, json_escape, json_escaped, json_focus_target, json_hunk,
    json_location, json_member, json_number_option, json_object, json_option, json_range,
    json_range_option, json_side, json_string, json_text_option,
};
use crate::key_laws::{lemma_between, lemma_flattened_of_one};
use crate::seqs::{flattened, lemma_flattened_concat};
use crate::text::{decimal, joined, lemma_decimal_injective};
use crate::text_laws::law_joined_parts_have_separators_between;
use crate::types::{
    FocusTargetView, HunkTargetView, LocationView, SemLineRange, SemSide, TargetView,
};

verus! {

// ---------------------------------------------------------------------------
// Strings

proof fn lemma_escaped_first(c: char, rest: Seq<char>)
    ensures
        json_escaped(seq![c] + rest) == json_escape(c) + json_escaped(rest),
    decreases rest.len(),
{
    let all = seq![c] + rest;
    if rest.len() == 0 {
        assert(all.drop_last() =~= Seq::empty());
        assert(all.last() == c);
        reveal_with_fuel(json_escaped, 2);
        assert(json_escaped(all) =~= json_escape(c) + json_escaped(rest));
    } else {
        lemma_escaped_first(c, rest.drop_last());
        assert(all.drop_last() =~= seq![c] + rest.drop_last());
        assert(all.last() == rest.last());
        assert(json_escaped(all) =~= json_escape(c) + json_escaped(rest));
    }
}

proof fn lemma_hex_digits(a: int, b: int)
    requires
        0 <= a < 16,
        0 <= b < 16,
        hex_digit(a) == hex_digit(b),
    ensures
        a == b,
{
    reveal_strlit("0123456789abcdef");
    let t = "0123456789abcdef"@;
    assert(t[0] == '0' && t[1] == '1' && t[2] == '2' && t[3] == '3' && t[4] == '4' && t[5] == '5'
        && t[6] == '6' && t[7] == '7');
    assert(t[8] == '8' && t[9] == '9' && t[10] == 'a' && t[11] == 'b' && t[12] == 'c' && t[13]
        == 'd' && t[14] == 'e' && t[15] == 'f');
}

/// What stands for a character tells which one, whatever follows.
proof fn lemma_escapes(c: char, x: Seq<char>, d: char, y: Seq<char>)
    requires
        json_escape(c) + x == json_escape(d) + y,
    ensures
        c == d,
        x == y,
{
    let p = json_escape(c);
    let q = json_escape(d);
    let s = p + x;
    let t = q + y;
    assert(s[0] == p[0]);
    assert(t[0] == q[0]);
    if p.len() > 1 && q.len() > 1 {
        assert(s[1] == p[1]);
        assert(t[1] == q[1]);
        if p.len() == 6 && q.len() == 6 {
            assert(s[4] == p[4] && s[5] == p[5]);
            assert(t[4] == q[4] && t[5] == q[5]);
            lemma_hex_digits(c as int / 16, d as int / 16);
            lemma_hex_digits(c as int % 16, d as int % 16);
        }
    }
    assert(c == d);
    assert(x =~= s.skip(p.len() as int));
    assert(y =~= t.skip(q.len() as int));
}

proof fn lemma_escaped_apart(a: Seq<char>, b: Seq<char>)
    requires
        json_escaped(a) == json_escaped(b),
    ensures
        a == b,
    decreases a.len(),
{
    if a.len() > 0 {
        lemma_escaped_first(a[0], a.skip(1));
        assert(a =~= seq![a[0]] + a.skip(1));
    }
    if b.len() > 0 {
        lemma_escaped_first(b[0], b.skip(1));
        assert(b =~= seq![b[0]] + b.skip(1));
    }
    if a.len() > 0 && b.len() > 0 {
        lemma_escapes(a[0], json_escaped(a.skip(1)), b[0], json_escaped(b.skip(1)));
        lemma_escaped_apart(a.skip(1), b.skip(1));
    } else if a.len() > 0 {
        assert(json_escaped(a).len() > 0);
    } else if b.len() > 0 {
        assert(json_escaped(b).len() > 0);
    } else {
        assert(a =~= b);
    }
}

/// Different texts are different JSON strings.
pub proof fn law_strings_tell_texts_apart(a: Seq<char>, b: Seq<char>)
    ensures
        json_string(a) == json_string(b) <==> a == b,
{
    if json_string(a) == json_string(b) {
        lemma_between(seq!['"'], json_escaped(a), json_escaped(b), seq!['"']);
        lemma_escaped_apart(a, b);
    }
}

// ---------------------------------------------------------------------------
// Objects

proof fn lemma_joined_around(
    front: Seq<Seq<char>>,
    part: Seq<char>,
    back: Seq<Seq<char>>,
    separator: Seq<char>,
) -> (around: (Seq<char>, Seq<char>))
    ensures
        joined(front + seq![part] + back, separator) == around.0 + part + around.1,
        around.0 == if front.len() == 0 {
            Seq::empty()
        } else {
            joined(front, separator) + separator
        },
        around.1 == if back.len() == 0 {
            Seq::empty()
        } else {
            separator + joined(back, separator)
        },
{
    let one = seq![part];
    let start = if front.len() == 0 {
        Seq::empty()
    } else {
        joined(front, separator) + separator
    };
    let end = if back.len() == 0 {
        Seq::empty()
    } else {
        separator + joined(back, separator)
    };
    law_joined_parts_have_separators_between(one, one, part, separator);
    if front.len() == 0 {
        assert(front + one =~= one);
    } else {
        law_joined_parts_have_separators_between(front, one, part, separator);
    }
    assert(joined(front + one, separator) =~= start + part);
    if back.len() == 0 {
        assert(front + one + back =~= front + one);
    } else {
        law_joined_parts_have_separators_between(front + one, back, part, separator);
    }
    assert(joined(front + one + back, separator) =~= start + part + end);
    (start, end)
}

/// Objects that differ in one member at most are the same only if that one is, or
/// is in neither.
proof fn lemma_one_member(
    front: Seq<Seq<char>>,
    name: Seq<char>,
    u: Option<Seq<char>>,
    v: Option<Seq<char>>,
    back: Seq<Seq<char>>,
)
    requires
        json_object(front + json_option(name, u) + back) == json_object(
            front + json_option(name, v) + back,
        ),
    ensures
        u == v,
{
    let a = front + json_option(name, u) + back;
    let b = front + json_option(name, v) + back;
    let comma = ","@;
    lemma_between("{"@, joined(a, comma), joined(b, comma), "}"@);
    match (u, v) {
        (Some(x), Some(y)) => {
            let p = json_member(name, x);
            let q = json_member(name, y);
            let (s, t) = lemma_joined_around(front, p, back, comma);
            lemma_joined_around(front, q, back, comma);
            lemma_between(s, p, q, t);
            let nothing = Seq::<char>::empty();
            let start = "\""@ + name + "\":"@;
            assert(p =~= start + x + nothing);
            assert(q =~= start + y + nothing);
            lemma_between(start, x, y, nothing);
        },
        (Some(x), None) => {
            lemma_member_is_longer(front, name, x, back);
        },
        (None, Some(y)) => {
            lemma_member_is_longer(front, name, y, back);
        },
        (None, None) => {},
    }
}

proof fn lemma_member_is_longer(
    front: Seq<Seq<char>>,
    name: Seq<char>,
    value: Seq<char>,
    back: Seq<Seq<char>>,
)
    ensures
        joined(front + json_option(name, Some(value)) + back, ","@).len() > joined(
            front + json_option(name, None) + back,
            ","@,
        ).len(),
{
    let comma = ","@;
    let part = json_member(name, value);
    let none = json_option(name, None);
    reveal_strlit(",");
    reveal_strlit("\"");
    assert(part.len() > 0);
    lemma_joined_around(front, part, back, comma);
    assert(front + none + back =~= front + back);
    if front.len() == 0 {
        assert(front + back =~= back);
    } else if back.len() == 0 {
        assert(front + back =~= front);
    } else {
        law_joined_parts_have_separators_between(front, back, part, comma);
    }
    if front.len() == 0 && back.len() == 0 {
        assert(joined(front + back, comma).len() == 0);
    }
}

proof fn lemma_text_options(a: Option<Seq<char>>, b: Option<Seq<char>>)
    requires
        json_text_option(a) == json_text_option(b),
    ensures
        a == b,
{
    if a is Some && b is Some {
        law_strings_tell_texts_apart(a->0, b->0);
    }
}

proof fn lemma_sides(a: SemSide, b: SemSide)
    requires
        json_side(a) == json_side(b),
    ensures
        a == b,
{
    reveal_strlit("\"before\"");
    reveal_strlit("\"after\"");
    assert("\"before\""@[1] == 'b' && "\"after\""@[1] == 'a');
}

proof fn lemma_number_options(a: Option<usize>, b: Option<usize>)
    requires
        json_number_option(a) == json_number_option(b),
    ensures
        a == b,
{
    if a is Some && b is Some {
        lemma_decimal_injective(a->0 as nat, b->0 as nat);
    }
}

// ---------------------------------------------------------------------------
// Targets

/// The JSON text of an entity target is different where one thing that it names
/// is another, or is left open.
pub proof fn law_entity_targets_are_told_apart(this: TargetView, other: TargetView)
    requires
        json_entity_target(this) == json_entity_target(other),
    ensures
        other == (TargetView { entity_id: other.entity_id, ..this }) ==> other == this,
        other == (TargetView { entity_name: other.entity_name, ..this }) ==> other == this,
        other == (TargetView { file_path: other.file_path, ..this }) ==> other == this,
{
    let id = json_option("entityId"@, json_text_option(this.entity_id));
    let name = json_option("entityName"@, json_text_option(this.entity_name));
    let path = json_option("filePath"@, json_text_option(this.file_path));
    let none = Seq::<Seq<char>>::empty();
    if other == (TargetView { entity_id: other.entity_id, ..this }) {
        let x = json_text_option(this.entity_id);
        let y = json_text_option(other.entity_id);
        assert(id + name + path =~= none + json_option("entityId"@, x) + (name + path));
        assert(json_option("entityId"@, y) + name + path =~= none + json_option("entityId"@, y) + (
        name + path));
        lemma_one_member(none, "entityId"@, x, y, name + path);
        lemma_text_options(this.entity_id, other.entity_id);
    }
    if other == (TargetView { entity_name: other.entity_name, ..this }) {
        let x = json_text_option(this.entity_name);
        let y = json_text_option(other.entity_name);
        lemma_one_member(id, "entityName"@, x, y, path);
        lemma_text_options(this.entity_name, other.entity_name);
    }
    if other == (TargetView { file_path: other.file_path, ..this }) {
        let x = json_text_option(this.file_path);
        let y = json_text_option(other.file_path);
        assert(id + name + path =~= id + name + path + none);
        assert(id + name + json_option("filePath"@, y) =~= id + name + json_option("filePath"@, y)
            + none);
        lemma_one_member(id + name, "filePath"@, x, y, none);
        lemma_text_options(this.file_path, other.file_path);
    }
}

/// The JSON text of a location is different where its file, its line or its side
/// is another.
pub proof fn law_locations_are_told_apart(this: LocationView, other: LocationView)
    requires
        json_location(this) == json_location(other),
    ensures
        other == (LocationView { file_path: other.file_path, ..this }) ==> other == this,
        other == (LocationView { line: other.line, ..this }) ==> other == this,
        other == (LocationView { side: other.side, ..this }) ==> other == this,
{
    let path = json_option("filePath"@, Some(json_string(this.file_path)));
    let line = json_option("line"@, Some(decimal(this.line as nat)));
    let side = json_option("side"@, Some(json_side(this.side)));
    let none = Seq::<Seq<char>>::empty();
    if other == (LocationView { file_path: other.file_path, ..this }) {
        let x = Some(json_string(this.file_path));
        let y = Some(json_string(other.file_path));
        assert(path + line + side =~= none + json_option("filePath"@, x) + (line + side));
        assert(json_option("filePath"@, y) + line + side =~= none + json_option("filePath"@, y) + (
        line + side));
        lemma_one_member(none, "filePath"@, x, y, line + side);
        law_strings_tell_texts_apart(this.file_path, other.file_path);
    }
    if other == (LocationView { line: other.line, ..this }) {
        let x = Some(decimal(this.line as nat));
        let y = Some(decimal(other.line as nat));
        lemma_one_member(path, "line"@, x, y, side);
        lemma_decimal_injective(this.line as nat, other.line as nat);
    }
    if other == (LocationView { side: other.side, ..this }) {
        let x = Some(json_side(this.side));
        let y = Some(json_side(other.side));
        assert(path + line + side =~= path + line + side + none);
        assert(path + line + json_option("side"@, y) =~= path + line + json_option("side"@, y)
            + none);
        lemma_one_member(path + line, "side"@, x, y, none);
        lemma_sides(this.side, other.side);
    }
}

proof fn lemma_ranges(a: SemLineRange, b: SemLineRange)
    requires
        json_range(a) == json_range(b),
    ensures
        a.start_line == b.start_line ==> a.end_line == b.end_line,
        a.end_line == b.end_line ==> a.start_line == b.start_line,
{
    let start = json_option("startLine"@, Some(decimal(a.start_line as nat)));
    let end = json_option("endLine"@, Some(decimal(a.end_line as nat)));
    let none = Seq::<Seq<char>>::empty();
    if a.start_line == b.start_line {
        let x = Some(decimal(a.end_line as nat));
        let y = Some(decimal(b.end_line as nat));
        assert(start + json_option("endLine"@, x) =~= start + json_option("endLine"@, x) + none);
        assert(start + json_option("endLine"@, y) =~= start + json_option("endLine"@, y) + none);
        lemma_one_member(start, "endLine"@, x, y, none);
        lemma_decimal_injective(a.end_line as nat, b.end_line as nat);
    }
    if a.end_line == b.end_line {
        let x = Some(decimal(a.start_line as nat));
        let y = Some(decimal(b.start_line as nat));
        assert(json_option("startLine"@, x) + end =~= none + json_option("startLine"@, x) + end);
        assert(json_option("startLine"@, y) + end =~= none + json_option("startLine"@, y) + end);
        lemma_one_member(none, "startLine"@, x, y, end);
        lemma_decimal_injective(a.start_line as nat, b.start_line as nat);
    }
}

/// Objects of members that differ in one at most are the same only if that one
/// is.
proof fn lemma_one_of_members(
    a: Seq<Seq<Seq<char>>>,
    b: Seq<Seq<Seq<char>>>,
    i: int,
    name: Seq<char>,
    u: Option<Seq<char>>,
    v: Option<Seq<char>>,
)
    requires
        0 <= i < a.len(),
        a.len() == b.len(),
        forall|j: int| 0 <= j < a.len() && j != i ==> #[trigger] a[j] == b[j],
        a[i] == json_option(name, u),
        b[i] == json_option(name, v),
        json_object(flattened(a)) == json_object(flattened(b)),
    ensures
        u == v,
{
    let front = a.take(i);
    let back = a.skip(i + 1);
    assert forall|j: int| 0 <= j < b.len() && j != i implies #[trigger] b[j] == a[j] by {
        assert(a[j] == b[j]);
    }
    assert(a =~= front + seq![a[i]] + back);
    assert(b =~= front + seq![b[i]] + back);
    lemma_flattened_concat(front + seq![a[i]], back);
    lemma_flattened_concat(front, seq![a[i]]);
    lemma_flattened_concat(front + seq![b[i]], back);
    lemma_flattened_concat(front, seq![b[i]]);
    lemma_flattened_of_one(a[i]);
    lemma_flattened_of_one(b[i]);
    lemma_one_member(flattened(front), name, u, v, flattened(back));
}

proof fn lemma_hunk_members(hunk: HunkTargetView) -> (members: Seq<Seq<Seq<char>>>)
    ensures
        json_hunk(hunk) == json_object(flattened(members)),
        members.len() == 7,
        members[0] == json_option("filePath"@, Some(json_string(hunk.file_path))),
        members[1] == json_option("oldFilePath"@, json_text_option(hunk.old_file_path)),
        members[2] == json_option("hunkIndex"@, json_number_option(hunk.hunk_index)),
        members[3] == json_option("hunkHeader"@, json_text_option(hunk.hunk_header)),
        members[4] == json_option("side"@, Some(json_side(hunk.side))),
        members[5] == json_option("oldRange"@, json_range_option(hunk.old_range)),
        members[6] == json_option("newRange"@, json_range_option(hunk.new_range)),
{
    let m0 = json_option("filePath"@, Some(json_string(hunk.file_path)));
    let p0 = seq![m0];
    lemma_flattened_of_one(m0);
    let m1 = json_option("oldFilePath"@, json_text_option(hunk.old_file_path));
    let p1 = p0.push(m1);
    lemma_member_more(p0, m1);
    let m2 = json_option("hunkIndex"@, json_number_option(hunk.hunk_index));
    let p2 = p1.push(m2);
    lemma_member_more(p1, m2);
    let m3 = json_option("hunkHeader"@, json_text_option(hunk.hunk_header));
    let p3 = p2.push(m3);
    lemma_member_more(p2, m3);
    let m4 = json_option("side"@, Some(json_side(hunk.side)));
    let p4 = p3.push(m4);
    lemma_member_more(p3, m4);
    let m5 = json_option("oldRange"@, json_range_option(hunk.old_range));
    let p5 = p4.push(m5);
    lemma_member_more(p4, m5);
    let m6 = json_option("newRange"@, json_range_option(hunk.new_range));
    let p6 = p5.push(m6);
    lemma_member_more(p5, m6);
    p6
}

proof fn lemma_member_more(members: Seq<Seq<Seq<char>>>, more: Seq<Seq<char>>)
    ensures
        flattened(members.push(more)) == flattened(members) + more,
{
    assert(members.push(more).drop_last() =~= members);
}

/// The JSON text of a hunk target is different where one thing that it names is
/// another, or is left open.
pub proof fn law_hunk_targets_are_told_apart(this: HunkTargetView, other: HunkTargetView)
    requires
        json_hunk(this) == json_hunk(other),
    ensures
        other == (HunkTargetView { file_path: other.file_path, ..this }) ==> other == this,
        other == (HunkTargetView { old_file_path: other.old_file_path, ..this }) ==> other == this,
        other == (HunkTargetView { hunk_index: other.hunk_index, ..this }) ==> other == this,
        other == (HunkTargetView { hunk_header: other.hunk_header, ..this }) ==> other == this,
        other == (HunkTargetView { side: other.side, ..this }) ==> other == this,
        other == (HunkTargetView { old_range: other.old_range, ..this }) ==> match (
            this.old_range,
            other.old_range,
        ) {
            (Some(a), Some(b)) => (a.start_line == b.start_line <==> a.end_line == b.end_line),
            (None, None) => true,
            _ => false,
        },
        other == (HunkTargetView { new_range: other.new_range, ..this }) ==> match (
            this.new_range,
            other.new_range,
        ) {
            (Some(a), Some(b)) => (a.start_line == b.start_line <==> a.end_line == b.end_line),
            (None, None) => true,
            _ => false,
        },
{
    let x = lemma_hunk_members(this);
    let y = lemma_hunk_members(other);
    if other == (HunkTargetView { file_path: other.file_path, ..this }) {
        let u = Some(json_string(this.file_path));
        let v = Some(json_string(other.file_path));
        lemma_one_of_members(x, y, 0, "filePath"@, u, v);
        law_strings_tell_texts_apart(this.file_path, other.file_path);
    }
    if other == (HunkTargetView { old_file_path: other.old_file_path, ..this }) {
        let u = json_text_option(this.old_file_path);
        let v = json_text_option(other.old_file_path);
        lemma_one_of_members(x, y, 1, "oldFilePath"@, u, v);
        lemma_text_options(this.old_file_path, other.old_file_path);
    }
    if other == (HunkTargetView { hunk_index: other.hunk_index, ..this }) {
        let u = json_number_option(this.hunk_index);
        let v = json_number_option(other.hunk_index);
        lemma_one_of_members(x, y, 2, "hunkIndex"@, u, v);
        lemma_number_options(this.hunk_index, other.hunk_index);
    }
    if other == (HunkTargetView { hunk_header: other.hunk_header, ..this }) {
        let u = json_text_option(this.hunk_header);
        let v = json_text_option(other.hunk_header);
        lemma_one_of_members(x, y, 3, "hunkHeader"@, u, v);
        lemma_text_options(this.hunk_header, other.hunk_header);
    }
    if other == (HunkTargetView { side: other.side, ..this }) {
        let u = Some(json_side(this.side));
        let v = Some(json_side(other.side));
        lemma_one_of_members(x, y, 4, "side"@, u, v);
        lemma_sides(this.side, other.side);
    }
    if other == (HunkTargetView { old_range: other.old_range, ..this }) {
        let u = json_range_option(this.old_range);
        let v = json_range_option(other.old_range);
        lemma_one_of_members(x, y, 5, "oldRange"@, u, v);
        if this.old_range is Some && other.old_range is Some {
            lemma_ranges(this.old_range->0, other.old_range->0);
        }
    }
    if other == (HunkTargetView { new_range: other.new_range, ..this }) {
        let u = json_range_option(this.new_range);
        let v = json_range_option(other.new_range);
        lemma_one_of_members(x, y, 6, "newRange"@, u, v);
        if this.new_range is Some && other.new_range is Some {
            lemma_ranges(this.new_range->0, other.new_range->0);
        }
    }
}

/// The JSON text of a focus target is different where the entity, the location
/// or the hunk that it names is written otherwise, or is left open.
pub proof fn law_focus_targets_are_told_apart(this: FocusTargetView, other: FocusTargetView)
    requires
        json_focus_target(this) == json_focus_target(other),
    ensures
        other == (FocusTargetView { entity: other.entity, ..this }) ==> match (
            this.entity,
            other.entity,
        ) {
            (Some(a), Some(b)) => json_entity_target(a) == json_entity_target(b),
            (None, None) => true,
            _ => false,
        },
        other == (FocusTargetView { location: other.location, ..this }) ==> match (
            this.location,
            other.location,
        ) {
            (Some(a), Some(b)) => json_location(a) == json_location(b),
            (None, None) => true,
            _ => false,
        },
        other == (FocusTargetView { hunk: other.hunk, ..this }) ==> match (this.hunk, other.hunk) {
            (Some(a), Some(b)) => json_hunk(a) == json_hunk(b),
            (None, None) => true,
            _ => false,
        },
{
    let (a, b, c) = texts_of(this);
    let (x, y, z) = texts_of(other);
    let entity = json_option("entity"@, a);
    let location = json_option("location"@, b);
    let hunk = json_option("hunk"@, c);
    let none = Seq::<Seq<char>>::empty();
    if other == (FocusTargetView { entity: other.entity, ..this }) {
        assert(entity + location + hunk =~= none + entity + (location + hunk));
        assert(json_option("entity"@, x) + location + hunk =~= none + json_option("entity"@, x) + (
        location + hunk));
        lemma_one_member(none, "entity"@, a, x, location + hunk);
    }
    if other == (FocusTargetView { location: other.location, ..this }) {
        lemma_one_member(entity, "location"@, b, y, hunk);
    }
    if other == (FocusTargetView { hunk: other.hunk, ..this }) {
        assert(entity + location + hunk =~= entity + location + hunk + none);
        assert(entity + location + json_option("hunk"@, z) =~= entity + location + json_option(
            "hunk"@,
            z,
        ) + none);
        lemma_one_member(entity + location, "hunk"@, c, z, none);
    }
}

spec fn texts_of(target: FocusTargetView) -> (
    Option<Seq<char>>,
    Option<Seq<char>>,
    Option<Seq<char>>,
) {
    (
        match target.entity {
            Some(entity) => Some(json_entity_target(entity)),
            None => None,
        },
        match target.location {
            Some(location) => Some(json_location(location)),
            None => None,
        },
        match target.hunk {
            Some(hunk) => Some(json_hunk(hunk)),
            None => None,
        },
    )
}

} // verus!
