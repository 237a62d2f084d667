//! Which paths lead outside, and which are hidden.

use vstd::prelude::*;

use crate::memory::{is_misplaced, leaves_directory, misplaced, segment_separator, PathStyle};
use crate::search::{has_hidden_segment, has_piece, hidden_name, is_piece, separates, Separator};
use crate::scan::relative_path;
use crate::seqs::{first_where, lemma_first_where_place};
use crate::types::{FileInputView, SemErrorKind};

verus! {

/// The piece of a text that begins at a place.
proof fn lemma_piece_from(text: Seq<char>, separator: Separator, i: int, at: int) -> (j: int)
    requires
        0 <= i <= at <= text.len(),
        i == 0 || separates(separator, text[i - 1]),
        forall|k: int| i <= k < at ==> !separates(separator, #[trigger] text[k]),
    ensures
        at <= j,
        is_piece(text, separator, i, j),
    decreases text.len() - at,
{
    if at == text.len() || separates(separator, text[at]) {
        at
    } else {
        lemma_piece_from(text, separator, i, at + 1)
    }
}

// ---------------------------------------------------------------------------
// Paths that lead outside

/// Whether a character separates the segments of a path.
pub open spec fn parts_paths(style: PathStyle, c: char) -> bool {
    c == '/' || (style is Windows && c == '\\')
}

/// Whether a path has a segment of two dots at a place.
pub open spec fn leads_up_at(path: Seq<char>, style: PathStyle, i: int) -> bool {
    &&& 0 <= i < path.len() - 1
    &&& path[i] == '.'
    &&& path[i + 1] == '.'
    &&& i == 0 || parts_paths(style, path[i - 1])
    &&& i + 2 == path.len() || parts_paths(style, path[i + 2])
}

/// Whether a path can lead outside of the directory that it is taken from: it
/// begins at a root, with a drive where there are any, or has a segment of two
/// dots.
pub open spec fn leads_outside(path: Seq<char>, style: PathStyle) -> bool {
    ||| path.len() > 0 && parts_paths(style, path[0])
    ||| style is Windows && path.len() > 1 && path[1] == ':' && ('a' <= path[0] <= 'z' || 'A'
        <= path[0] <= 'Z')
    ||| exists|i: int| #[trigger] leads_up_at(path, style, i)
}

proof fn lemma_leads_outside(path: Seq<char>, style: PathStyle)
    ensures
        leads_outside(path, style) == leaves_directory(path, style),
{
    let separator = segment_separator(style);
    reveal_strlit("..");
    if has_piece(path, separator, ".."@) {
        let (i, j) = choose|i: int, j: int| #[trigger]
            is_piece(path, separator, i, j) && path.subrange(i, j) == ".."@;
        assert(path.subrange(i, j).len() == ".."@.len());
        assert(path.subrange(i, j)[0] == '.' && path.subrange(i, j)[1] == '.');
        assert(leads_up_at(path, style, i));
    }
    if exists|i: int| #[trigger] leads_up_at(path, style, i) {
        let i = choose|i: int| #[trigger] leads_up_at(path, style, i);
        let j = lemma_piece_from(path, separator, i, i + 2);
        if j > i + 2 {
            assert(!separates(separator, path[i + 2]));
        }
        assert(path.subrange(i, j) =~= ".."@);
        assert(is_piece(path, separator, i, j));
    }
}

/// A memory graph is refused for the first of its files whose path can lead
/// outside, which the error names, and for no other reason that lies in its
/// files.
pub proof fn law_paths_that_lead_outside_are_refused(files: Seq<FileInputView>, style: PathStyle)
    ensures
        match first_where(files, is_misplaced(style)) {
            None => forall|i: int|
                0 <= i < files.len() ==> !leads_outside((#[trigger] files[i]).file_path, style),
            Some(file) => {
                &&& exists|k: int|
                    {
                        &&& 0 <= k < files.len()
                        &&& #[trigger] files[k] == file
                        &&& forall|j: int|
                            0 <= j < k ==> !leads_outside((#[trigger] files[j]).file_path, style)
                    }
                &&& leads_outside(file.file_path, style)
                &&& misplaced(file.file_path).kind == SemErrorKind::InvalidInput
                &&& misplaced(file.file_path).message
                    == "memory graph file path must be relative: "@ + file.file_path
            },
        },
{
    let wanted = is_misplaced(style);
    assert forall|i: int| 0 <= i < files.len() implies wanted(#[trigger] files[i])
        == leads_outside(files[i].file_path, style) by {
        lemma_leads_outside(files[i].file_path, style);
    }
    let k = lemma_first_where_place(files, wanted);
    if first_where(files, wanted) is None {
        assert forall|i: int| 0 <= i < files.len() implies !leads_outside(
            (#[trigger] files[i]).file_path,
            style,
        ) by {
            assert(!wanted(files[i]));
        }
    } else {
        assert forall|j: int| 0 <= j < k implies !leads_outside(
            (#[trigger] files[j]).file_path,
            style,
        ) by {
            assert(!wanted(files[j]));
        }
        assert(wanted(files[k]));
    }
}

// ---------------------------------------------------------------------------
// Hidden paths

/// Whether a segment that begins with a dot stands at a place of a path, and is
/// more than one dot or two.
pub open spec fn is_hidden_at(path: Seq<char>, i: int) -> bool {
    &&& 0 <= i < path.len() - 1
    &&& path[i] == '.'
    &&& i == 0 || path[i - 1] == '/'
    &&& path[i + 1] != '/'
    &&& path[i + 1] == '.' ==> i + 2 < path.len() && path[i + 2] != '/'
}

/// Whether a path has a hidden segment.
pub open spec fn is_hidden(path: Seq<char>) -> bool {
    exists|i: int| #[trigger] is_hidden_at(path, i)
}

/// A path is hidden just if one of its segments begins with a dot and is neither
/// that dot alone nor two of them.
pub proof fn law_hidden_paths_have_a_dotted_segment(path: Seq<char>)
    ensures
        has_hidden_segment(path) == is_hidden(path),
{
    reveal_strlit(".");
    reveal_strlit("..");
    let slash = Separator::Slash;
    if has_hidden_segment(path) {
        let (i, j) = choose|i: int, j: int| #[trigger]
            is_piece(path, slash, i, j) && hidden_name(path.subrange(i, j));
        let name = path.subrange(i, j);
        assert(name[0] == path[i]);
        if j == i + 1 {
            assert(name =~= "."@);
        }
        assert(!separates(slash, path[i + 1]));
        if path[i + 1] == '.' {
            assert(name[1] == path[i + 1]);
            if j == i + 2 {
                assert(name =~= ".."@);
            }
            assert(!separates(slash, path[i + 2]));
        }
        assert(is_hidden_at(path, i));
    }
    if is_hidden(path) {
        let i = choose|i: int| #[trigger] is_hidden_at(path, i);
        let j = lemma_piece_from(path, slash, i, i + 2);
        let name = path.subrange(i, j);
        assert(name[0] == path[i] && name[1] == path[i + 1]);
        if name == ".."@ {
            assert(name.len() == ".."@.len());
            assert(name[1] == '.');
        }
        if name == "."@ {
            assert(name.len() == 1);
        }
        assert(hidden_name(name));
    }
}

/// The path of an entry has a slash wherever the host has a slash or a
/// backslash, and is otherwise the same.
pub proof fn law_paths_have_slashes(path: Seq<char>, i: int)
    requires
        0 <= i < path.len(),
    ensures
        relative_path(None) is None,
        relative_path(Some(path)) matches Some(shown) && shown.len() == path.len() && (if path[i]
            == '/' || path[i] == '\\' {
            shown[i] == '/'
        } else {
            shown[i] == path[i]
        }),
{
}

} // verus!
