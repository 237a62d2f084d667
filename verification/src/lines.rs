//! Lines of a text and the snippet that stands for one of them.

use vstd::prelude::*;

use crate::search::{contains_identifier, has_piece, Separator};
use crate::seqs::first_where;
use crate::text::{chars_of, text_between};

verus! {

/// The most characters a snippet holds.
pub const SNIPPET_CHARS: usize = 260;

/// Where the first line break stands, or the length of a text without one.
pub open spec fn line_end(text: Seq<char>) -> int
    decreases text.len(),
{
    if text.len() == 0 || text[0] == '\n' {
        0
    } else {
        1 + line_end(text.drop_first())
    }
}

/// The first line break stands at the line end.
pub proof fn lemma_line_end(text: Seq<char>)
    ensures
        0 <= line_end(text) <= text.len(),
        line_end(text) < text.len() ==> text[line_end(text)] == '\n',
        forall|k: int| 0 <= k < line_end(text) ==> text[k] != '\n',
    decreases text.len(),
{
    if text.len() > 0 && text[0] != '\n' {
        let rest = text.drop_first();
        lemma_line_end(rest);
        assert forall|k: int| 0 <= k < line_end(text) implies text[k] != '\n' by {
            if k > 0 {
                assert(rest[k - 1] == text[k]);
            }
        }
    }
}

/// A position is the line end if it holds the first line break, or is the
/// length of a text without one.
proof fn lemma_line_end_at(text: Seq<char>, n: int)
    requires
        0 <= n <= text.len(),
        n < text.len() ==> text[n] == '\n',
        forall|k: int| 0 <= k < n ==> text[k] != '\n',
    ensures
        line_end(text) == n,
{
    lemma_line_end(text);
    if line_end(text) < n {
        assert(text[line_end(text)] != '\n');
    }
}

/// A line that a line break ended, without the carriage return before it.
pub open spec fn without_return(line: Seq<char>) -> Seq<char> {
    if line.len() > 0 && line.last() == '\r' {
        line.drop_last()
    } else {
        line
    }
}

/// The lines of a text. A line ends at `\n` or `\r\n`; the break after the
/// last line may be missing, and nothing after it is no line.
pub open spec fn lines(text: Seq<char>) -> Seq<Seq<char>>
    decreases text.len(),
{
    if text.len() == 0 {
        Seq::empty()
    } else {
        let n = line_end(text);
        if n < 0 || n >= text.len() {
            seq![text]
        } else {
            seq![without_return(text.take(n))] + lines(text.skip(n + 1))
        }
    }
}

/// The Unicode white space characters.
pub open spec fn is_white_space(c: char) -> bool {
    ||| '\u{9}' <= c <= '\u{d}'
    ||| c == '\u{20}'
    ||| c == '\u{85}'
    ||| c == '\u{a0}'
    ||| c == '\u{1680}'
    ||| '\u{2000}' <= c <= '\u{200a}'
    ||| c == '\u{2028}'
    ||| c == '\u{2029}'
    ||| c == '\u{202f}'
    ||| c == '\u{205f}'
    ||| c == '\u{3000}'
}

fn white_space(c: char) -> (yes: bool)
    ensures
        yes == is_white_space(c),
{
    ('\u{9}' <= c && c <= '\u{d}') || c == '\u{20}' || c == '\u{85}' || c == '\u{a0}' || c
        == '\u{1680}' || ('\u{2000}' <= c && c <= '\u{200a}') || c == '\u{2028}' || c == '\u{2029}'
        || c == '\u{202f}' || c == '\u{205f}' || c == '\u{3000}'
}

/// A text without the white space at its start.
pub open spec fn without_leading_space(text: Seq<char>) -> Seq<char>
    decreases text.len(),
{
    if text.len() > 0 && is_white_space(text[0]) {
        without_leading_space(text.drop_first())
    } else {
        text
    }
}

/// A text without the white space at its end.
pub open spec fn without_trailing_space(text: Seq<char>) -> Seq<char>
    decreases text.len(),
{
    if text.len() > 0 && is_white_space(text.last()) {
        without_trailing_space(text.drop_last())
    } else {
        text
    }
}

/// What stands for a line: its text without white space around it, cut to
/// the length of a snippet.
pub open spec fn snippet(line: Seq<char>) -> Seq<char> {
    let trimmed = without_trailing_space(without_leading_space(line));
    if trimmed.len() <= SNIPPET_CHARS {
        trimmed
    } else {
        trimmed.take(SNIPPET_CHARS as int)
    }
}

fn snippet_of(chars: &[char], from: usize, to: usize) -> (text: String)
    requires
        from <= to <= chars@.len(),
    ensures
        text@ == snippet(chars@.subrange(from as int, to as int)),
{
    let ghost line = chars@.subrange(from as int, to as int);
    let mut start: usize = from;
    while start < to && white_space(chars[start])
        invariant
            from <= start <= to <= chars@.len(),
            line == chars@.subrange(from as int, to as int),
            without_leading_space(line) == without_leading_space(
                chars@.subrange(start as int, to as int),
            ),
        decreases to - start,
    {
        assert(chars@.subrange(start as int, to as int).drop_first() =~= chars@.subrange(
            start + 1,
            to as int,
        ));
        start = start + 1;
    }
    let ghost left = chars@.subrange(start as int, to as int);
    assert(without_leading_space(line) == left);
    let mut end: usize = to;
    while end > start && white_space(chars[end - 1])
        invariant
            start <= end <= to <= chars@.len(),
            without_trailing_space(left) == without_trailing_space(
                chars@.subrange(start as int, end as int),
            ),
        decreases end,
    {
        assert(chars@.subrange(start as int, end as int).drop_last() =~= chars@.subrange(
            start as int,
            end - 1,
        ));
        end = end - 1;
    }
    assert(without_trailing_space(left) == chars@.subrange(start as int, end as int));
    let cut: usize = if end - start <= SNIPPET_CHARS {
        end
    } else {
        start + SNIPPET_CHARS
    };
    assert(chars@.subrange(start as int, cut as int) =~= snippet(line));
    text_between(chars, start, cut)
}

/// Whether a line mentions a symbol as an identifier.
pub open spec fn mentions(symbol: Seq<char>) -> spec_fn(Seq<char>) -> bool {
    |line: Seq<char>| has_piece(line, Separator::NonIdentifier, symbol)
}

/// The snippet of the first line that mentions a symbol.
pub open spec fn mention_snippet(content: Seq<char>, symbol: Seq<char>) -> Option<Seq<char>> {
    match first_where(lines(content), mentions(symbol)) {
        Some(line) => Some(snippet(line)),
        None => None,
    }
}

/// The snippet of the first line of `content` that mentions `symbol` as an
/// identifier, if a line does.
pub fn first_matching_line(content: &str, symbol: &str) -> (found: Option<String>)
    ensures
        found.deep_view() == mention_snippet(content@, symbol@),
{
    let chars = chars_of(content);
    let mut from: usize = 0;
    let ghost wanted = mentions(symbol@);
    assert(content@.skip(0) =~= content@);
    while from < chars.len()
        invariant
            chars@ == content@,
            wanted == mentions(symbol@),
            from <= chars@.len(),
            first_where(lines(content@), wanted) == first_where(lines(content@.skip(from as int)), wanted),
        decreases chars@.len() - from,
    {
        let ghost rest = content@.skip(from as int);
        let mut end: usize = from;
        while end < chars.len() && chars[end] != '\n'
            invariant
                chars@ == content@,
                from <= end <= chars@.len(),
                forall|k: int| from <= k < end ==> content@[k] != '\n',
            decreases chars@.len() - end,
        {
            end = end + 1;
        }
        assert(line_end(rest) == end - from) by {
            assert forall|k: int| 0 <= k < end - from implies rest[k] != '\n' by {
                assert(rest[k] == content@[k + from]);
            }
            lemma_line_end_at(rest, end - from);
        }
        let stop: usize = if end < chars.len() && end > from && chars[end - 1] == '\r' {
            end - 1
        } else {
            end
        };
        let ghost line = content@.subrange(from as int, stop as int);
        proof {
            assert(rest.take(end - from) =~= content@.subrange(from as int, end as int));
            if end < chars@.len() {
                assert(without_return(rest.take(end - from)) =~= line);
                assert(lines(rest)[0] == line);
                assert(rest.skip(end - from + 1) =~= content@.skip(end + 1));
                assert(lines(rest).drop_first() =~= lines(content@.skip(end + 1)));
            } else {
                assert(rest =~= line);
                assert(lines(rest) =~= seq![line]);
                assert(lines(rest).drop_first() =~= Seq::empty());
            }
        }
        if contains_identifier(text_between(chars.as_slice(), from, stop).as_str(), symbol) {
            return Some(snippet_of(chars.as_slice(), from, stop));
        }
        if end == chars.len() {
            assert(first_where(lines(rest).drop_first(), wanted) is None);
            return None;
        }
        from = end + 1;
    }
    assert(content@.skip(from as int) =~= Seq::<char>::empty());
    None
}

} // verus!
