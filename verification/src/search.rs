//! Looking into texts: case, parts, path segments, identifiers and lines.

use vstd::prelude::*;

use crate::text::{chars_of, same_text, text_between};

verus! {

// ---------------------------------------------------------------------------
// ASCII case

/// An ASCII capital in lower case; any other character as it is.
pub open spec fn ascii_lower(c: char) -> char {
    if 'A' <= c <= 'Z' {
        (c as u32 + 32) as char
    } else {
        c
    }
}

pub open spec fn lower(text: Seq<char>) -> Seq<char> {
    text.map_values(|c: char| ascii_lower(c))
}

fn lower_char(c: char) -> (l: char)
    ensures
        l == ascii_lower(c),
{
    if 'A' <= c && c <= 'Z' {
        let code: u8 = c as u8;
        (code + 32) as char
    } else {
        c
    }
}

/// The text with ASCII capitals turned into lower case.
pub fn lower_text(text: &str) -> (lowered: String)
    ensures
        lowered@ == lower(text@),
{
    let mut lowered = String::new();
    for c in it: text.chars()
        invariant
            it.seq() == text@,
            lowered@ == lower(text@.take(it.index())),
    {
        lowered.push(lower_char(c));
        assert(lower(text@.take(it.index() + 1)) =~= lower(text@.take(it.index())).push(
            ascii_lower(c),
        ));
    }
    assert(text@.take(text@.len() as int) =~= text@);
    lowered
}

/// Whether two texts are the same but for the case of ASCII letters.
pub fn same_ignoring_case(a: &str, b: &str) -> (same: bool)
    ensures
        same == (lower(a@) == lower(b@)),
{
    same_text(lower_text(a).as_str(), lower_text(b).as_str())
}

// ---------------------------------------------------------------------------
// Parts of a text

/// Whether `part` stands in `text` at position `i`.
pub open spec fn occurs_at(text: Seq<char>, part: Seq<char>, i: int) -> bool {
    &&& 0 <= i
    &&& i + part.len() <= text.len()
    &&& text.subrange(i, i + part.len()) == part
}

/// Whether `part` stands anywhere in `text`.
pub open spec fn has_part(text: Seq<char>, part: Seq<char>) -> bool {
    exists|i: int| occurs_at(text, part, i)
}

pub open spec fn ends_with(text: Seq<char>, part: Seq<char>) -> bool {
    occurs_at(text, part, text.len() - part.len())
}

fn chars_occur_at(text: &[char], part: &[char], i: usize) -> (found: bool)
    ensures
        found == occurs_at(text@, part@, i as int),
{
    if part.len() > text.len() || i > text.len() - part.len() {
        return false;
    }
    let size: usize = text.len();
    let mut k: usize = 0;
    while k < part.len()
        invariant
            size == text@.len(),
            i + part@.len() <= size,
            k <= part@.len(),
            forall|m: int| 0 <= m < k ==> text@[i + m] == #[trigger] part@[m],
        decreases part@.len() - k,
    {
        if text[i + k] != part[k] {
            assert(text@.subrange(i as int, i + part@.len())[k as int] != part@[k as int]);
            return false;
        }
        k = k + 1;
    }
    assert(text@.subrange(i as int, i + part@.len()) =~= part@);
    true
}

/// Whether `part` stands anywhere in `text`.
pub fn text_has_part(text: &str, part: &str) -> (found: bool)
    ensures
        found == has_part(text@, part@),
{
    let whole = chars_of(text);
    let wanted = chars_of(part);
    let mut i: usize = 0;
    while i < whole.len()
        invariant
            whole@ == text@,
            wanted@ == part@,
            i <= whole@.len(),
            forall|j: int| 0 <= j < i ==> !occurs_at(text@, part@, j),
        decreases whole@.len() - i,
    {
        if chars_occur_at(whole.as_slice(), wanted.as_slice(), i) {
            return true;
        }
        i = i + 1;
    }
    let at_end = chars_occur_at(whole.as_slice(), wanted.as_slice(), i);
    assert(has_part(text@, part@) ==> at_end) by {
        if has_part(text@, part@) {
            let j = choose|j: int| occurs_at(text@, part@, j);
            assert(occurs_at(text@, part@, j));
            assert(j == i);
        }
    }
    at_end
}

/// Whether `text` ends with `part`.
pub fn text_ends_with(text: &str, part: &str) -> (found: bool)
    ensures
        found == ends_with(text@, part@),
{
    let whole = chars_of(text);
    let wanted = chars_of(part);
    wanted.len() <= whole.len() && chars_occur_at(
        whole.as_slice(),
        wanted.as_slice(),
        whole.len() - wanted.len(),
    )
}

// ---------------------------------------------------------------------------
// Paths

/// How many characters stand before the last `/`, if there is one.
pub open spec fn last_slash(path: Seq<char>) -> Option<int>
    decreases path.len(),
{
    if path.len() == 0 {
        None
    } else if path.last() == '/' {
        Some(path.len() - 1)
    } else {
        last_slash(path.drop_last())
    }
}

/// The directory of a `/`-separated path: what stands before its last `/`, or
/// `.` for a path without one.
pub open spec fn directory(path: Seq<char>) -> Seq<char> {
    match last_slash(path) {
        Some(n) => path.take(n),
        None => "."@,
    }
}

/// The directory of a `/`-separated path.
pub fn directory_of(path: &str) -> (dir: String)
    ensures
        dir@ == directory(path@),
{
    let chars = chars_of(path);
    let mut n: usize = chars.len();
    assert(path@.take(n as int) =~= path@);
    while n > 0
        invariant
            n <= chars@.len(),
            chars@ == path@,
            last_slash(path@) == last_slash(path@.take(n as int)),
        decreases n,
    {
        assert(path@.take(n as int).drop_last() =~= path@.take(n - 1));
        if chars[n - 1] == '/' {
            assert(last_slash(path@) == Some(n - 1));
            return text_between(chars.as_slice(), 0, n - 1);
        }
        n = n - 1;
    }
    ".".to_string()
}

/// A path with every backslash turned into a slash.
pub open spec fn with_slashes(path: Seq<char>) -> Seq<char> {
    path.map_values(|c: char| if c == '\\' { '/' } else { c })
}

/// Turns every backslash of a path into a slash.
pub fn slashed(path: &str) -> (text: String)
    ensures
        text@ == with_slashes(path@),
{
    let mut text = String::new();
    for c in it: path.chars()
        invariant
            it.seq() == path@,
            text@ == with_slashes(path@.take(it.index())),
    {
        text.push(if c == '\\' { '/' } else { c });
        assert(with_slashes(path@.take(it.index() + 1)) =~= with_slashes(path@.take(it.index())).push(
            if c == '\\' { '/' } else { c },
        ));
    }
    assert(path@.take(path@.len() as int) =~= path@);
    text
}

// ---------------------------------------------------------------------------
// Pieces between separators

/// Where one piece of a text ends and the next begins.
#[derive(Debug, Clone, Copy, PartialEq, Eq, Structural)]
pub enum Separator {
    /// A slash, between the segments of a path.
    Slash,
    /// A slash or a backslash.
    EitherSlash,
    /// Any character that no identifier holds.
    NonIdentifier,
}

pub open spec fn is_identifier_char(c: char) -> bool {
    'a' <= c <= 'z' || 'A' <= c <= 'Z' || '0' <= c <= '9' || c == '_'
}

pub open spec fn separates(separator: Separator, c: char) -> bool {
    match separator {
        Separator::Slash => c == '/',
        Separator::EitherSlash => c == '/' || c == '\\',
        Separator::NonIdentifier => !is_identifier_char(c),
    }
}

fn is_separator(separator: Separator, c: char) -> (yes: bool)
    ensures
        yes == separates(separator, c),
{
    match separator {
        Separator::Slash => c == '/',
        Separator::EitherSlash => c == '/' || c == '\\',
        Separator::NonIdentifier => !('a' <= c && c <= 'z' || 'A' <= c && c <= 'Z' || '0' <= c && c
            <= '9' || c == '_'),
    }
}

/// Whether the characters from `i` up to `j` are one piece of the text: no
/// separator in it, and one, or an end of the text, on either side.
pub open spec fn is_piece(text: Seq<char>, separator: Separator, i: int, j: int) -> bool {
    &&& 0 <= i <= j <= text.len()
    &&& i == 0 || separates(separator, text[i - 1])
    &&& j == text.len() || separates(separator, text[j])
    &&& forall|k: int| i <= k < j ==> !separates(separator, #[trigger] text[k])
}

/// The bounds of all pieces of a text, from its start to its end.
fn pieces(text: &[char], separator: Separator) -> (bounds: Vec<(usize, usize)>)
    ensures
        forall|n: int|
            0 <= n < bounds@.len() ==> is_piece(
                text@,
                separator,
                (#[trigger] bounds@[n]).0 as int,
                bounds@[n].1 as int,
            ),
        forall|i: int, j: int| #[trigger]
            is_piece(text@, separator, i, j) ==> exists|n: int|
                0 <= n < bounds@.len() && (#[trigger] bounds@[n]).0 == i && bounds@[n].1 == j,
{
    let mut bounds: Vec<(usize, usize)> = Vec::new();
    let mut start: usize = 0;
    let mut at: usize = 0;
    while at < text.len()
        invariant
            start <= at <= text@.len(),
            start == 0 || separates(separator, text@[start - 1]),
            forall|k: int| start <= k < at ==> !separates(separator, #[trigger] text@[k]),
            forall|n: int|
                0 <= n < bounds@.len() ==> is_piece(
                    text@,
                    separator,
                    (#[trigger] bounds@[n]).0 as int,
                    bounds@[n].1 as int,
                ),
            forall|i: int, j: int| #[trigger]
                is_piece(text@, separator, i, j) && i < start ==> exists|n: int|
                    0 <= n < bounds@.len() && (#[trigger] bounds@[n]).0 == i && bounds@[n].1 == j,
        decreases text@.len() - at,
    {
        if is_separator(separator, text[at]) {
            let ghost before = bounds@;
            bounds.push((start, at));
            assert forall|i: int, j: int| #[trigger]
                is_piece(text@, separator, i, j) && i < at + 1 implies exists|n: int|
                0 <= n < bounds@.len() && (#[trigger] bounds@[n]).0 == i && bounds@[n].1 == j by {
                if i < start {
                    let n = choose|n: int|
                        0 <= n < before.len() && (#[trigger] before[n]).0 == i && before[n].1 == j;
                    assert(bounds@[n] == before[n]);
                } else {
                    if i > start {
                        assert(!separates(separator, text@[i - 1]));
                    }
                    assert(i == start);
                    if j < at {
                        assert(!separates(separator, text@[j]));
                    }
                    assert(bounds@[before.len() as int] == (start, at));
                }
            }
            start = at + 1;
        }
        at = at + 1;
    }
    let ghost before = bounds@;
    bounds.push((start, at));
    assert forall|i: int, j: int| #[trigger] is_piece(text@, separator, i, j) implies exists|n: int|
        0 <= n < bounds@.len() && (#[trigger] bounds@[n]).0 == i && bounds@[n].1 == j by {
        if i < start {
            let n = choose|n: int|
                0 <= n < before.len() && (#[trigger] before[n]).0 == i && before[n].1 == j;
            assert(bounds@[n] == before[n]);
        } else {
            if i > start {
                assert(!separates(separator, text@[i - 1]));
            }
            if j < at {
                assert(!separates(separator, text@[j]));
            }
            assert(bounds@[before.len() as int] == (start, at));
        }
    }
    bounds
}

/// Whether one of the pieces of `text` is `wanted`.
pub open spec fn has_piece(text: Seq<char>, separator: Separator, wanted: Seq<char>) -> bool {
    exists|i: int, j: int| #[trigger]
        is_piece(text, separator, i, j) && text.subrange(i, j) == wanted
}

fn chars_have_piece(text: &[char], separator: Separator, wanted: &str) -> (found: bool)
    ensures
        found == has_piece(text@, separator, wanted@),
{
    let bounds = pieces(text, separator);
    let mut n: usize = 0;
    while n < bounds.len()
        invariant
            n <= bounds@.len(),
            forall|m: int|
                0 <= m < bounds@.len() ==> is_piece(
                    text@,
                    separator,
                    (#[trigger] bounds@[m]).0 as int,
                    bounds@[m].1 as int,
                ),
            forall|m: int|
                0 <= m < n ==> text@.subrange((#[trigger] bounds@[m]).0 as int, bounds@[m].1 as int)
                    != wanted@,
        decreases bounds@.len() - n,
    {
        let (from, to) = bounds[n];
        assert(is_piece(text@, separator, bounds@[n as int].0 as int, bounds@[n as int].1 as int));
        if same_text(text_between(text, from, to).as_str(), wanted) {
            return true;
        }
        n = n + 1;
    }
    false
}

/// Whether one of the identifiers in `content` is `symbol`: whether it stands
/// there with no identifier character directly before or after it.
pub fn contains_identifier(content: &str, symbol: &str) -> (found: bool)
    ensures
        found == has_piece(content@, Separator::NonIdentifier, symbol@),
{
    let chars = chars_of(content);
    chars_have_piece(chars.as_slice(), Separator::NonIdentifier, symbol)
}

/// Whether a path leads upwards somewhere: whether one of its segments is `..`.
pub fn has_parent_segment(path: &str, separator: Separator) -> (found: bool)
    ensures
        found == has_piece(path@, separator, ".."@),
{
    let chars = chars_of(path);
    chars_have_piece(chars.as_slice(), separator, "..")
}

/// Whether the name from `i` up to `j` is hidden: it begins with a dot, and is
/// neither the current nor the parent directory.
pub open spec fn hidden_name(name: Seq<char>) -> bool {
    name.len() > 0 && name[0] == '.' && name != "."@ && name != ".."@
}

/// Whether a segment of a `/`-separated path is hidden.
pub open spec fn has_hidden_segment(path: Seq<char>) -> bool {
    exists|i: int, j: int| #[trigger]
        is_piece(path, Separator::Slash, i, j) && hidden_name(path.subrange(i, j))
}

/// Whether a segment of a `/`-separated path is hidden.
pub fn path_has_hidden_component(path: &str) -> (hidden: bool)
    ensures
        hidden == has_hidden_segment(path@),
{
    let chars = chars_of(path);
    let bounds = pieces(chars.as_slice(), Separator::Slash);
    let mut n: usize = 0;
    while n < bounds.len()
        invariant
            n <= bounds@.len(),
            chars@ == path@,
            forall|m: int|
                0 <= m < bounds@.len() ==> is_piece(
                    path@,
                    Separator::Slash,
                    (#[trigger] bounds@[m]).0 as int,
                    bounds@[m].1 as int,
                ),
            forall|m: int|
                0 <= m < n ==> !hidden_name(
                    path@.subrange((#[trigger] bounds@[m]).0 as int, bounds@[m].1 as int),
                ),
        decreases bounds@.len() - n,
    {
        let (from, to) = bounds[n];
        assert(is_piece(
            path@,
            Separator::Slash,
            bounds@[n as int].0 as int,
            bounds@[n as int].1 as int,
        ));
        if from < to && chars[from] == '.' {
            let name = text_between(chars.as_slice(), from, to);
            if !same_text(name.as_str(), ".") && !same_text(name.as_str(), "..") {
                return true;
            }
        }
        n = n + 1;
    }
    false
}

} // verus!
