//! What holds of texts: their order, numbers in digits, joined parts, and the
//! snippets that are shown of them.

use vstd::prelude::*;

use crate::impact_laws::{holds_word, lemma_holds_word};
use crate::lines::{
    is_white_space, lemma_line_end, line_end, lines, mention_snippet, mentions, snippet,
    without_leading_space, without_return, without_trailing_space,
};
use crate::seqs::first_where;
use crate::text::{decimal, digit, is_digit, joined, lemma_decimal_digits, text_before};

verus! {

// ---------------------------------------------------------------------------
// Order, digits and joined parts

/// Whether two texts differ first at a place, and one ends there or has the
/// smaller character.
pub open spec fn comes_first_at(a: Seq<char>, b: Seq<char>, k: int) -> bool {
    &&& 0 <= k <= a.len()
    &&& k < b.len()
    &&& forall|i: int| 0 <= i < k ==> #[trigger] a[i] == b[i]
    &&& k == a.len() || a[k] < b[k]
}

/// One text stands before another just if it ends where they differ first, or has
/// the smaller character there.
pub proof fn law_texts_are_ordered_by_their_first_difference(a: Seq<char>, b: Seq<char>)
    ensures
        text_before(a, b) <==> exists|k: int| #[trigger] comes_first_at(a, b, k),
    decreases a.len(),
{
    if b.len() > 0 && a.len() > 0 && a[0] == b[0] {
        let x = a.drop_first();
        let y = b.drop_first();
        law_texts_are_ordered_by_their_first_difference(x, y);
        if text_before(x, y) {
            let k = choose|k: int| #[trigger] comes_first_at(x, y, k);
            assert forall|i: int| 0 <= i < k + 1 implies #[trigger] a[i] == b[i] by {
                if i > 0 {
                    assert(x[i - 1] == a[i] && y[i - 1] == b[i]);
                    assert(x[i - 1] == y[i - 1]);
                }
            }
            assert(comes_first_at(a, b, k + 1));
        }
        if exists|k: int| #[trigger] comes_first_at(a, b, k) {
            let k = choose|k: int| #[trigger] comes_first_at(a, b, k);
            assert(k > 0);
            assert forall|i: int| 0 <= i < k - 1 implies #[trigger] x[i] == y[i] by {
                assert(a[i + 1] == b[i + 1]);
            }
            assert(comes_first_at(x, y, k - 1));
        }
    } else if text_before(a, b) {
        assert(comes_first_at(a, b, 0));
    } else {
        assert forall|k: int| !#[trigger] comes_first_at(a, b, k) by {
            if comes_first_at(a, b, k) && k > 0 {
                assert(a[0] == b[0]);
            }
        }
    }
}

/// The number that decimal digits stand for.
pub open spec fn number_of(digits: Seq<char>) -> int
    decreases digits.len(),
{
    if digits.len() == 0 {
        0
    } else {
        10 * number_of(digits.drop_last()) + (digits.last() as int - 48)
    }
}

/// A number in decimal digits stands for that number, and begins with a zero only
/// if it is zero.
pub proof fn law_digits_stand_for_their_number(n: nat)
    ensures
        number_of(decimal(n)) == n,
        forall|i: int| 0 <= i < decimal(n).len() ==> '0' <= #[trigger] decimal(n)[i] <= '9',
        decimal(n).len() > 0,
        decimal(n)[0] == '0' ==> n == 0,
    decreases n,
{
    lemma_decimal_digits(n);
    assert forall|i: int| 0 <= i < decimal(n).len() implies '0' <= #[trigger] decimal(n)[i]
        <= '9' by {
        assert(is_digit(decimal(n)[i]));
    }
    assert(decimal(n).last() == digit(n % 10));
    assert(digit(n % 10) as int == 48 + n % 10);
    reveal_with_fuel(number_of, 2);
    if n >= 10 {
        law_digits_stand_for_their_number(n / 10);
        lemma_decimal_digits(n / 10);
        assert(decimal(n).drop_last() =~= decimal(n / 10));
        assert(decimal(n)[0] == decimal(n / 10)[0]);
    } else {
        assert(decimal(n).drop_last() =~= Seq::empty());
    }
}

/// Parts are joined by a separator between each two neighbours: what is joined
/// in two steps is what is joined at once.
pub proof fn law_joined_parts_have_separators_between(
    a: Seq<Seq<char>>,
    b: Seq<Seq<char>>,
    part: Seq<char>,
    separator: Seq<char>,
)
    requires
        a.len() > 0,
        b.len() > 0,
    ensures
        joined(a + b, separator) == joined(a, separator) + separator + joined(b, separator),
        joined(seq![part], separator) == part,
        joined(Seq::empty(), separator).len() == 0,
    decreases b.len(),
{
    let c = b.drop_last();
    assert((a + b).drop_last() =~= a + c);
    if c.len() == 0 {
        assert(a + c =~= a);
    } else {
        law_joined_parts_have_separators_between(a, c, part, separator);
        assert(joined(a + b, separator) =~= joined(a, separator) + separator + joined(
            b,
            separator,
        ));
    }
}

// ---------------------------------------------------------------------------
// Lines

/// Whether a line of a text reaches from one place to another: up to a line
/// break or the end, with no line break in it.
pub open spec fn is_line(text: Seq<char>, i: int, j: int) -> bool {
    &&& 0 <= i <= j <= text.len()
    &&& i < text.len()
    &&& i == 0 || text[i - 1] == '\n'
    &&& j == text.len() || text[j] == '\n'
    &&& forall|k: int| i <= k < j ==> #[trigger] text[k] != '\n'
}

/// The text of a line, without a carriage return before the line break.
pub open spec fn line_text(text: Seq<char>, i: int, j: int) -> Seq<char> {
    if i < j < text.len() && text[j - 1] == '\r' {
        text.subrange(i, j - 1)
    } else {
        text.subrange(i, j)
    }
}

/// Whether a line is one that holds a word.
pub open spec fn is_line_with(text: Seq<char>, i: int, j: int, word: Seq<char>) -> bool {
    is_line(text, i, j) && holds_word(line_text(text, i, j), word)
}

/// Whether a line is the first one that holds a word.
pub open spec fn is_first_line_with(text: Seq<char>, i: int, j: int, word: Seq<char>) -> bool {
    &&& is_line_with(text, i, j, word)
    &&& forall|x: int, y: int| x < i ==> !#[trigger] is_line_with(text, x, y, word)
}

#[verifier::rlimit(30)]
proof fn lemma_first_line(text: Seq<char>, word: Seq<char>) -> (at: (int, int))
    ensures
        match first_where(lines(text), mentions(word)) {
            None => forall|x: int, y: int| !#[trigger] is_line_with(text, x, y, word),
            Some(line) => is_first_line_with(text, at.0, at.1, word) && line == line_text(
                text,
                at.0,
                at.1,
            ),
        },
    decreases text.len(),
{
    let n = line_end(text);
    lemma_line_end(text);
    if text.len() == 0 {
        assert(lines(text).len() == 0);
        (0, 0)
    } else {
        let first = line_text(text, 0, n);
        assert(text.take(n) =~= text.subrange(0, n));
        lemma_holds_word(first, word);
        assert(mentions(word)(first) == holds_word(first, word));
        assert(is_line(text, 0, n));
        assert(is_line_with(text, 0, n, word) == holds_word(first, word));
        assert forall|y: int| #[trigger] is_line_with(text, 0, y, word) implies y == n by {
            if y < n {
                assert(text[y] != '\n');
            } else if y > n {
                assert(text[n] != '\n');
            }
        }
        if n == text.len() {
            assert(first =~= text);
            assert(lines(text) =~= seq![first]);
            assert(lines(text).drop_first() =~= Seq::empty());
            assert forall|x: int, y: int| #[trigger] is_line_with(text, x, y, word) implies x
                == 0 by {
                if x > 0 {
                    assert(text[x - 1] != '\n');
                }
            }
            if holds_word(first, word) {
                assert(first_where(lines(text), mentions(word)) == Some(first));
            } else {
                assert(first_where(lines(text).drop_first(), mentions(word)) is None);
                assert forall|x: int, y: int| !#[trigger] is_line_with(text, x, y, word) by {}
            }
            (0, n)
        } else {
            let rest = text.skip(n + 1);
            assert(without_return(text.take(n)) =~= first);
            assert(lines(text) =~= seq![first] + lines(rest));
            assert(lines(text)[0] == first);
            assert(lines(text).drop_first() =~= lines(rest));
            let at = lemma_first_line(rest, word);
            assert forall|x: int, y: int| #[trigger]
                is_line_with(text, x, y, word) && x > 0 implies x > n && is_line_with(
                rest,
                x - n - 1,
                y - n - 1,
                word,
            ) by {
                if x - 1 < n {
                    assert(text[x - 1] != '\n');
                }
                assert forall|k: int| x - n - 1 <= k < y - n - 1 implies #[trigger] rest[k]
                    != '\n' by {
                    assert(text[k + n + 1] != '\n');
                }
                assert(is_line(rest, x - n - 1, y - n - 1));
                assert(line_text(rest, x - n - 1, y - n - 1) =~= line_text(text, x, y));
            }
            if mentions(word)(first) {
                assert(first_where(lines(text), mentions(word)) == Some(first));
                assert forall|x: int, y: int| x < 0 implies !#[trigger] is_line_with(
                    text,
                    x,
                    y,
                    word,
                ) by {}
                (0, n)
            } else {
                let (i, j) = (at.0 + n + 1, at.1 + n + 1);
                assert(first_where(lines(text), mentions(word)) == first_where(
                    lines(rest),
                    mentions(word),
                ));
                if first_where(lines(rest), mentions(word)) is Some {
                    assert(is_line_with(rest, at.0, at.1, word));
                    assert forall|k: int| i <= k < j implies #[trigger] text[k] != '\n' by {
                        assert(rest[k - n - 1] != '\n');
                    }
                    assert(text[n] == '\n');
                    if at.0 > 0 {
                        assert(rest[at.0 - 1] == text[i - 1]);
                    }
                    if at.1 < rest.len() {
                        assert(rest[at.1] == text[j]);
                    }
                    assert(is_line(text, i, j));
                    assert(line_text(rest, at.0, at.1) =~= line_text(text, i, j));
                    assert forall|x: int, y: int| x < i implies !#[trigger] is_line_with(
                        text,
                        x,
                        y,
                        word,
                    ) by {
                        if is_line_with(text, x, y, word) {
                            if x > 0 {
                                assert(is_line_with(rest, x - n - 1, y - n - 1, word));
                            }
                        }
                    }
                } else {
                    assert forall|x: int, y: int| !#[trigger] is_line_with(text, x, y, word) by {
                        if is_line_with(text, x, y, word) {
                            if x > 0 {
                                assert(is_line_with(rest, x - n - 1, y - n - 1, word));
                            }
                        }
                    }
                }
                (i, j)
            }
        }
    }
}

// ---------------------------------------------------------------------------
// Snippets

/// Whether a character is blank: one of the white space characters of Unicode.
pub open spec fn is_blank(c: char) -> bool {
    let code = c as int;
    ||| 9 <= code <= 13
    ||| code == 32
    ||| code == 133
    ||| code == 160
    ||| code == 5760
    ||| 8192 <= code <= 8202
    ||| code == 8232
    ||| code == 8233
    ||| code == 8239
    ||| code == 8287
    ||| code == 12288
}

/// Whether a text is what is shown of a line: what stands in it from one place to
/// another, with blanks alone before it; and behind it blanks alone, without one
/// at its end, or else it is as long as a snippet can be.
pub open spec fn is_shown_of(shown: Seq<char>, line: Seq<char>, a: int, b: int) -> bool {
    &&& 0 <= a <= b <= line.len()
    &&& shown == line.subrange(a, b)
    &&& shown.len() <= 260
    &&& forall|k: int| 0 <= k < a ==> is_blank(#[trigger] line[k])
    &&& a < line.len() ==> !is_blank(line[a])
    &&& {
        ||| (forall|k: int| b <= k < line.len() ==> is_blank(#[trigger] line[k])) && (a < b
            ==> !is_blank(line[b - 1]))
        ||| shown.len() == 260 && exists|k: int| b <= k < line.len() && !is_blank(#[trigger] line[k])
    }
}

proof fn lemma_blank(c: char)
    ensures
        is_blank(c) == is_white_space(c),
{
}

proof fn lemma_leading(line: Seq<char>) -> (a: int)
    ensures
        0 <= a <= line.len(),
        without_leading_space(line) == line.skip(a),
        forall|k: int| 0 <= k < a ==> is_blank(#[trigger] line[k]),
        a < line.len() ==> !is_blank(line[a]),
    decreases line.len(),
{
    if line.len() > 0 && is_white_space(line[0]) {
        let rest = line.drop_first();
        let a = lemma_leading(rest);
        lemma_blank(line[0]);
        assert(rest.skip(a) =~= line.skip(a + 1));
        assert forall|k: int| 0 <= k < a + 1 implies is_blank(#[trigger] line[k]) by {
            if k > 0 {
                assert(rest[k - 1] == line[k]);
            }
        }
        a + 1
    } else {
        if line.len() > 0 {
            lemma_blank(line[0]);
        }
        assert(line.skip(0) =~= line);
        0
    }
}

proof fn lemma_trailing(line: Seq<char>) -> (b: int)
    ensures
        0 <= b <= line.len(),
        without_trailing_space(line) == line.take(b),
        forall|k: int| b <= k < line.len() ==> is_blank(#[trigger] line[k]),
        b > 0 ==> !is_blank(line[b - 1]),
    decreases line.len(),
{
    let n = line.len() - 1;
    if line.len() > 0 && is_white_space(line.last()) {
        let front = line.drop_last();
        let b = lemma_trailing(front);
        lemma_blank(line[n]);
        assert(front.take(b) =~= line.take(b));
        assert forall|k: int| b <= k < line.len() implies is_blank(#[trigger] line[k]) by {
            if k < n {
                assert(front[k] == line[k]);
            }
        }
        b
    } else {
        if line.len() > 0 {
            lemma_blank(line[n]);
        }
        assert(line.take(n + 1) =~= line);
        n + 1
    }
}

proof fn lemma_shown(line: Seq<char>) -> (at: (int, int))
    ensures
        is_shown_of(snippet(line), line, at.0, at.1),
{
    let a = lemma_leading(line);
    let left = line.skip(a);
    let m = lemma_trailing(left);
    let trimmed = left.take(m);
    let b = a + m;
    assert(trimmed =~= line.subrange(a, b));
    if m > 0 {
        assert(left[m - 1] == line[b - 1]);
    }
    if m <= 260 {
        assert forall|k: int| b <= k < line.len() implies is_blank(#[trigger] line[k]) by {
            assert(left[k - a] == line[k]);
        }
        (a, b)
    } else {
        assert(trimmed.take(260) =~= line.subrange(a, a + 260));
        assert(!is_blank(line[b - 1]));
        (a, a + 260)
    }
}

/// The snippet of a word is what is shown of the first line that holds it; there
/// is none just if no line does.
pub proof fn law_a_snippet_shows_the_first_line_with_the_word(
    content: Seq<char>,
    word: Seq<char>,
) -> (at: (int, int, int, int))
    ensures
        mention_snippet(content, word) is None ==> forall|i: int, j: int|
            !#[trigger] is_line_with(content, i, j, word),
        mention_snippet(content, word) matches Some(shown) ==> is_first_line_with(
            content,
            at.0,
            at.1,
            word,
        ) && is_shown_of(shown, line_text(content, at.0, at.1), at.2, at.3),
{
    let (i, j) = lemma_first_line(content, word);
    let (a, b) = lemma_shown(line_text(content, i, j));
    (i, j, a, b)
}

} // verus!
