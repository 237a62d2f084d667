//! What keys tell apart.

use vstd::prelude::*;

use crate::hash::{
    digest, digest_or_empty, has_no_zero, have_no_zero, key_text, law_key_text_tells_parts_apart,
    stable_key, with_parts,
};
use crate::json::json_focus_target;
use crate::keys::{
    atom_part, change_part, change_parts, debug_option, debug_range, decimals, diff_impact_key,
    diff_key, diff_parts, discovery_key, entity_index_key, entity_part, file_part, files_parts,
    focus_key, hunk_part, impact_key, impact_request_part, layer_options_part, memory_graph_key,
    options_part, path_part, repo_graph_key, request_part, review_atom_layer_key, review_layer_key, scan_part, status_label,
};
use crate::model::{EntityView, FileStatus};
use crate::order::{lemma_sorted_texts, lemma_sorted_texts_unique, sorted_texts};
use crate::seqs::{flattened, lemma_flattened_concat};
use crate::text::{
    bool_word, decimal, is_digit, joined, lemma_decimal_digits, lemma_decimal_injective, text_or,
};
use crate::types::{
    AtomView, FileChangeView, FileInputView, FocusTargetView, HunkView, OptionsView,
    ScanOptionsView, SemImpactRequest, SemLayerGenerationOptions, SemLineRange, TargetView,
    SEM_EMBEDDED_API_VERSION,
};

verus! {

/// Whether a hash is different for different texts.
pub open spec fn tells_texts_apart<H: Fn(&str) -> String>(hash: H) -> bool {
    forall|a: Seq<char>, b: Seq<char>| #[trigger]
        digest(hash, a) == #[trigger] digest(hash, b) ==> a == b
}

/// Whether two optional texts are the same, where none is as good as an empty
/// one.
pub open spec fn are_the_same_text(a: Option<Seq<char>>, b: Option<Seq<char>>) -> bool {
    a == b || (a is None || a->0.len() == 0) && (b is None || b->0.len() == 0)
}

/// Whether two optional contents are the same, where none is as good as one with
/// an empty hash.
pub open spec fn are_the_same_content<H: Fn(&str) -> String>(
    hash: H,
    a: Option<Seq<char>>,
    b: Option<Seq<char>>,
) -> bool {
    a == b || (a is None || digest(hash, a->0).len() == 0) && (b is None || digest(
        hash,
        b->0,
    ).len() == 0)
}

// ---------------------------------------------------------------------------
// Texts that differ in one place

/// Texts that begin and end alike are the same only if what stands between is.
pub proof fn lemma_between(front: Seq<char>, a: Seq<char>, b: Seq<char>, back: Seq<char>)
    requires
        front + a + back == front + b + back,
    ensures
        a == b,
{
    let s = front + a + back;
    let t = front + b + back;
    assert(s.len() == front.len() + a.len() + back.len());
    assert(t.len() == front.len() + b.len() + back.len());
    assert(a =~= s.subrange(front.len() as int, (front.len() + a.len()) as int));
    assert(b =~= t.subrange(front.len() as int, (front.len() + b.len()) as int));
}

/// Texts made of pieces that differ in one at most are the same only if that one
/// is.
proof fn lemma_one_piece(a: Seq<Seq<char>>, b: Seq<Seq<char>>, i: int)
    requires
        0 <= i < a.len(),
        a.len() == b.len(),
        forall|j: int| 0 <= j < a.len() && j != i ==> #[trigger] a[j] == b[j],
        flattened(a) == flattened(b),
    ensures
        a[i] == b[i],
{
    let front = a.take(i);
    let back = a.skip(i + 1);
    assert forall|j: int| 0 <= j < b.len() && j != i implies #[trigger] b[j] == a[j] by {
        assert(a[j] == b[j]);
    }
    assert(a =~= front + seq![a[i]] + back);
    assert(b =~= front + seq![b[i]] + back);
    lemma_flattened_concat(front + seq![a[i]], back);
    lemma_flattened_concat(front, seq![a[i]]);
    lemma_flattened_concat(front + seq![b[i]], back);
    lemma_flattened_concat(front, seq![b[i]]);
    lemma_flattened_of_one(a[i]);
    lemma_flattened_of_one(b[i]);
    lemma_between(flattened(front), a[i], b[i], flattened(back));
}

/// One piece more of a text.
proof fn lemma_piece_more(pieces: Seq<Seq<char>>, piece: Seq<char>)
    ensures
        flattened(pieces.push(piece)) == flattened(pieces) + piece,
{
    assert(pieces.push(piece).drop_last() =~= pieces);
}

proof fn lemma_with_parts_start(start: Seq<char>, parts: Seq<Seq<char>>)
    ensures
        with_parts(start, parts) == start + with_parts(Seq::empty(), parts),
    decreases parts.len(),
{
    if parts.len() == 0 {
        assert(start + Seq::<char>::empty() =~= start);
    } else {
        lemma_with_parts_start(start, parts.drop_last());
        assert(with_parts(start, parts) =~= start + with_parts(Seq::empty(), parts));
    }
}

proof fn lemma_with_parts_concat(start: Seq<char>, a: Seq<Seq<char>>, b: Seq<Seq<char>>)
    ensures
        with_parts(start, a + b) == with_parts(with_parts(start, a), b),
    decreases b.len(),
{
    if b.len() == 0 {
        assert(a + b =~= a);
    } else {
        assert((a + b).drop_last() =~= a + b.drop_last());
        lemma_with_parts_concat(start, a, b.drop_last());
    }
}

/// Keys that differ in one part at most are the same only if that part is.
proof fn lemma_one_part<H: Fn(&str) -> String>(
    hash: H,
    kind: Seq<char>,
    a: Seq<Seq<char>>,
    b: Seq<Seq<char>>,
    i: int,
)
    requires
        tells_texts_apart(hash),
        0 <= i < a.len(),
        a.len() == b.len(),
        forall|j: int| 0 <= j < a.len() && j != i ==> #[trigger] a[j] == b[j],
        stable_key(hash, kind, a) == stable_key(hash, kind, b),
    ensures
        a[i] == b[i],
{
    let start = SEM_EMBEDDED_API_VERSION@;
    let front = seq![kind] + a.take(i);
    let back = a.skip(i + 1);
    let nothing = Seq::<char>::empty();
    assert(digest(hash, key_text(kind, a)) == digest(hash, key_text(kind, b)));
    assert(key_text(kind, a) == key_text(kind, b));
    assert(b.take(i) =~= a.take(i)) by {
        assert forall|j: int| 0 <= j < i implies #[trigger] b.take(i)[j] == a.take(i)[j] by {
            assert(a[j] == b[j]);
        }
    }
    assert(b.skip(i + 1) =~= back) by {
        assert forall|j: int| 0 <= j < back.len() implies #[trigger] b.skip(i + 1)[j] == back[j] by {
            assert(a[j + i + 1] == b[j + i + 1]);
        }
    }
    assert(seq![kind] + a =~= front + seq![a[i]] + back);
    assert(seq![kind] + b =~= front + seq![b[i]] + back);
    lemma_with_parts_of_one(start, front, a[i], back);
    lemma_with_parts_of_one(start, front, b[i], back);
    lemma_between(
        with_parts(start, front).push('\0'),
        a[i],
        b[i],
        with_parts(nothing, back),
    );
}

proof fn lemma_with_parts_of_one(
    start: Seq<char>,
    front: Seq<Seq<char>>,
    part: Seq<char>,
    back: Seq<Seq<char>>,
)
    ensures
        with_parts(start, front + seq![part] + back) == with_parts(start, front).push('\0') + part
            + with_parts(Seq::empty(), back),
{
    let one = seq![part];
    lemma_with_parts_concat(start, front + one, back);
    lemma_with_parts_concat(start, front, one);
    assert(one.drop_last() =~= Seq::empty());
    assert(one.last() == part);
    reveal_with_fuel(with_parts, 2);
    assert(with_parts(start, front + one) == with_parts(start, front).push('\0') + part);
    lemma_with_parts_start(with_parts(start, front + one), back);
}

proof fn lemma_same_text(a: Option<Seq<char>>, b: Option<Seq<char>>)
    requires
        text_or(a, ""@) == text_or(b, ""@),
    ensures
        are_the_same_text(a, b),
{
    reveal_strlit("");
    assert(""@.len() == 0);
    if a is Some && b is Some {
        assert(a->0 == b->0);
    }
}

proof fn lemma_same_content<H: Fn(&str) -> String>(
    hash: H,
    a: Option<Seq<char>>,
    b: Option<Seq<char>>,
)
    requires
        tells_texts_apart(hash),
        digest_or_empty(hash, a) == digest_or_empty(hash, b),
    ensures
        are_the_same_content(hash, a, b),
{
    if a is Some && b is Some {
        assert(digest(hash, a->0) == digest(hash, b->0));
    }
}

proof fn lemma_bool_words(a: bool, b: bool)
    requires
        bool_word(a) == bool_word(b),
    ensures
        a == b,
{
    reveal_strlit("true");
    reveal_strlit("false");
    assert("true"@.len() == 4 && "false"@.len() == 5);
}

proof fn lemma_status_labels(a: FileStatus, b: FileStatus)
    requires
        status_label(a) == status_label(b),
    ensures
        a == b,
{
    reveal_strlit("added");
    reveal_strlit("modified");
    reveal_strlit("deleted");
    reveal_strlit("renamed");
    assert("added"@[0] == 'a' && "modified"@[0] == 'm' && "deleted"@[0] == 'd' && "renamed"@[0]
        == 'r');
}

// ---------------------------------------------------------------------------
// Options

/// What a key says of the options tells apart which configuration is loaded.
proof fn lemma_options_parts(a: OptionsView, b: OptionsView)
    requires
        options_part(a) == options_part(b),
    ensures
        a.load_semrc == b.load_semrc,
        a.load_gitattributes == b.load_gitattributes,
{
    reveal_strlit("opts:semrc=");
    reveal_strlit(":gitattributes=");
    reveal_strlit("true");
    reveal_strlit("false");
    let x = options_part(a);
    let y = options_part(b);
    let n = "opts:semrc="@.len() as int;
    assert("true"@[0] == 't' && "false"@[0] == 'f');
    assert(x[n] == bool_word(a.load_semrc)[0]);
    assert(y[n] == bool_word(b.load_semrc)[0]);
    let front = "opts:semrc="@ + bool_word(a.load_semrc) + ":gitattributes="@;
    let nothing = Seq::<char>::empty();
    assert(x =~= front + bool_word(a.load_gitattributes) + nothing);
    assert(y =~= front + bool_word(b.load_gitattributes) + nothing);
    lemma_between(
        front,
        bool_word(a.load_gitattributes),
        bool_word(b.load_gitattributes),
        nothing,
    );
    lemma_bool_words(a.load_gitattributes, b.load_gitattributes);
}

/// Keys are different where different configuration is loaded: those of a diff,
/// of an entity index, of a memory graph, of what a search found, and of a
/// review plan.
pub proof fn law_keys_change_with_the_options<H: Fn(&str) -> String>(
    hash: H,
    changes: Seq<FileChangeView>,
    files: Seq<FileInputView>,
    root: Seq<char>,
    scan_options: ScanOptionsView,
    found: Seq<Seq<char>>,
    analysis_key: Seq<char>,
    layer_options: SemLayerGenerationOptions,
    a: OptionsView,
    b: OptionsView,
)
    requires
        tells_texts_apart(hash),
        a.load_semrc != b.load_semrc || a.load_gitattributes != b.load_gitattributes,
    ensures
        diff_key(hash, changes, a) != diff_key(hash, changes, b),
        entity_index_key(hash, files, a) != entity_index_key(hash, files, b),
        memory_graph_key(hash, files, a) != memory_graph_key(hash, files, b),
        discovery_key(hash, root, scan_options, a, found) != discovery_key(
            hash,
            root,
            scan_options,
            b,
            found,
        ),
        review_layer_key(hash, analysis_key, layer_options, a) != review_layer_key(
            hash,
            analysis_key,
            layer_options,
            b,
        ),
{
    if diff_key(hash, changes, a) == diff_key(hash, changes, b) {
        lemma_one_part(hash, "diff"@, diff_parts(hash, changes, a), diff_parts(hash, changes, b), 0);
        lemma_options_parts(a, b);
    }
    let x = files_parts(hash, files, a);
    let y = files_parts(hash, files, b);
    if entity_index_key(hash, files, a) == entity_index_key(hash, files, b) {
        lemma_one_part(hash, "entities"@, x, y, 0);
        lemma_options_parts(a, b);
    }
    if memory_graph_key(hash, files, a) == memory_graph_key(hash, files, b) {
        lemma_one_part(hash, "memory-graph"@, x, y, 0);
        lemma_options_parts(a, b);
    }
    if discovery_key(hash, root, scan_options, a, found) == discovery_key(
        hash,
        root,
        scan_options,
        b,
        found,
    ) {
        let scan = scan_part(scan_options);
        lemma_one_part(
            hash,
            "discover"@,
            seq![root, options_part(a), scan] + found,
            seq![root, options_part(b), scan] + found,
            1,
        );
        lemma_options_parts(a, b);
    }
    if review_layer_key(hash, analysis_key, layer_options, a) == review_layer_key(
        hash,
        analysis_key,
        layer_options,
        b,
    ) {
        let bounds = layer_options_part(layer_options);
        lemma_one_part(
            hash,
            "review-layers"@,
            seq![analysis_key, options_part(a), bounds],
            seq![analysis_key, options_part(b), bounds],
            1,
        );
        lemma_options_parts(a, b);
    }
}

// ---------------------------------------------------------------------------
// Files

/// The keys of an entity index and of a memory graph are different where a file
/// has another content or another path.
pub proof fn law_keys_of_files_change_with_each_file<H: Fn(&str) -> String>(
    hash: H,
    files: Seq<FileInputView>,
    i: int,
    other: FileInputView,
    options: OptionsView,
)
    requires
        tells_texts_apart(hash),
        0 <= i < files.len(),
        entity_index_key(hash, files, options) == entity_index_key(
            hash,
            files.update(i, other),
            options,
        ) || memory_graph_key(hash, files, options) == memory_graph_key(
            hash,
            files.update(i, other),
            options,
        ),
    ensures
        other.file_path == files[i].file_path ==> other.content == files[i].content,
        other.content == files[i].content ==> other.file_path == files[i].file_path,
{
    let file = files[i];
    let a = files_parts(hash, files, options);
    let b = files_parts(hash, files.update(i, other), options);
    if entity_index_key(hash, files, options) == entity_index_key(
        hash,
        files.update(i, other),
        options,
    ) {
        lemma_one_part(hash, "entities"@, a, b, i + 1);
    } else {
        lemma_one_part(hash, "memory-graph"@, a, b, i + 1);
    }
    assert(a[i + 1] == file_part(hash, file));
    assert(b[i + 1] == file_part(hash, other));
    let nothing = Seq::<char>::empty();
    let x = digest(hash, file.content);
    let y = digest(hash, other.content);
    if other.file_path == file.file_path {
        let front = file.file_path + ":"@;
        assert(file_part(hash, file) =~= front + x + nothing);
        assert(file_part(hash, other) =~= front + y + nothing);
        lemma_between(front, x, y, nothing);
    }
    if other.content == file.content {
        let back = ":"@ + x;
        assert(file_part(hash, file) =~= nothing + file.file_path + back);
        assert(file_part(hash, other) =~= nothing + other.file_path + back);
        lemma_between(nothing, file.file_path, other.file_path, back);
    }
}

// ---------------------------------------------------------------------------
// Diffs

proof fn lemma_debug_ranges(a: Option<SemLineRange>, b: Option<SemLineRange>)
    requires
        debug_range(a) == debug_range(b),
    ensures
        a == b,
{
    reveal_strlit("Some(SemLineRange { start_line: ");
    reveal_strlit(", end_line: ");
    reveal_strlit(" })");
    reveal_strlit("None");
    let front = "Some(SemLineRange { start_line: "@;
    let middle = ", end_line: "@;
    let back = " })"@;
    let x = debug_range(a);
    let y = debug_range(b);
    assert(front[0] == 'S' && "None"@[0] == 'N');
    if a is Some {
        assert(x[0] == 'S');
    }
    if b is Some {
        assert(y[0] == 'S');
    }
    if a is Some && b is Some {
        let p = decimal(a->0.start_line as nat);
        let q = decimal(b->0.start_line as nat);
        let n = front.len() + p.len();
        let m = front.len() + q.len();
        lemma_decimal_digits(a->0.start_line as nat);
        lemma_decimal_digits(b->0.start_line as nat);
        assert(middle[0] == ',');
        assert(x[n as int] == ',');
        assert(y[m as int] == ',');
        if n < m {
            assert(y[n as int] == q[n - front.len()]);
            assert(is_digit(q[n - front.len()]));
        } else if m < n {
            assert(x[m as int] == p[m - front.len()]);
            assert(is_digit(p[m - front.len()]));
        }
        assert(p =~= x.subrange(front.len() as int, n as int));
        assert(q =~= y.subrange(front.len() as int, m as int));
        lemma_decimal_injective(a->0.start_line as nat, b->0.start_line as nat);
        let start = front + p + middle;
        let u = decimal(a->0.end_line as nat);
        let v = decimal(b->0.end_line as nat);
        assert(x =~= start + u + back);
        assert(y =~= start + v + back);
        lemma_between(start, u, v, back);
        lemma_decimal_injective(a->0.end_line as nat, b->0.end_line as nat);
    }
}

proof fn lemma_diff_parts<H: Fn(&str) -> String>(
    hash: H,
    changes: Seq<FileChangeView>,
    i: int,
    other: FileChangeView,
    options: OptionsView,
) -> (around: (Seq<Seq<char>>, Seq<Seq<char>>))
    requires
        0 <= i < changes.len(),
    ensures
        diff_parts(hash, changes, options) == around.0 + change_parts(hash, changes[i]) + around.1,
        diff_parts(hash, changes.update(i, other), options) == around.0 + change_parts(hash, other)
            + around.1,
{
    let f = |change: FileChangeView| change_parts(hash, change);
    let a = changes.map_values(f);
    let b = changes.update(i, other).map_values(f);
    let front = a.take(i);
    let back = a.skip(i + 1);
    assert(a =~= front + seq![a[i]] + back);
    assert(b =~= front + seq![b[i]] + back);
    lemma_flattened_concat(front + seq![a[i]], back);
    lemma_flattened_concat(front, seq![a[i]]);
    lemma_flattened_concat(front + seq![b[i]], back);
    lemma_flattened_concat(front, seq![b[i]]);
    lemma_flattened_of_one(a[i]);
    lemma_flattened_of_one(b[i]);
    let start = seq![options_part(options)] + flattened(front);
    assert(diff_parts(hash, changes, options) =~= start + change_parts(hash, changes[i])
        + flattened(back));
    assert(diff_parts(hash, changes.update(i, other), options) =~= start + change_parts(
        hash,
        other,
    ) + flattened(back));
    (start, flattened(back))
}

/// One sequence alone.
pub proof fn lemma_flattened_of_one<T>(parts: Seq<T>)
    ensures
        flattened(seq![parts]) == parts,
{
    let one = seq![parts];
    assert(one.drop_last() =~= Seq::empty());
    reveal_with_fuel(flattened, 2);
    assert(flattened(one) =~= parts);
}

/// The key of a diff is different where a changed file has another path, another
/// path before, another status, or another content on either side.
pub proof fn law_the_key_of_a_diff_changes_with_each_file<H: Fn(&str) -> String>(
    hash: H,
    changes: Seq<FileChangeView>,
    i: int,
    other: FileChangeView,
    options: OptionsView,
)
    requires
        tells_texts_apart(hash),
        0 <= i < changes.len(),
        diff_key(hash, changes, options) == diff_key(hash, changes.update(i, other), options),
    ensures
        ({
            let this = changes[i];
            &&& other == (FileChangeView { file_path: other.file_path, ..this }) ==> other.file_path
                == this.file_path
            &&& other == (FileChangeView { status: other.status, ..this }) ==> other.status
                == this.status
            &&& other == (FileChangeView { old_file_path: other.old_file_path, ..this })
                ==> are_the_same_text(other.old_file_path, this.old_file_path)
            &&& other == (FileChangeView { before_content: other.before_content, ..this })
                ==> are_the_same_content(hash, other.before_content, this.before_content)
            &&& other == (FileChangeView { after_content: other.after_content, ..this })
                ==> are_the_same_content(hash, other.after_content, this.after_content)
        }),
{
    let this = changes[i];
    if other.hunks == this.hunks {
        let (front, back) = lemma_diff_parts(hash, changes, i, other, options);
        let a = diff_parts(hash, changes, options);
        let b = diff_parts(hash, changes.update(i, other), options);
        let n = front.len() as int;
        assert(change_parts(hash, this)[0] == change_part(hash, this));
        assert(change_parts(hash, other)[0] == change_part(hash, other));
        assert(a[n] == change_part(hash, this));
        assert(b[n] == change_part(hash, other));
        assert(change_parts(hash, this).skip(1) =~= change_parts(hash, other).skip(1));
        assert forall|j: int| 0 <= j < a.len() && j != n implies #[trigger] a[j] == b[j] by {
            if n < j < n + change_parts(hash, this).len() {
                assert(a[j] == change_parts(hash, this).skip(1)[j - n - 1]);
                assert(b[j] == change_parts(hash, other).skip(1)[j - n - 1]);
            }
        }
        lemma_one_part(hash, "diff"@, a, b, n);
        lemma_change_parts_differ(hash, this, other);
    }
}

proof fn lemma_change_parts_differ<H: Fn(&str) -> String>(
    hash: H,
    this: FileChangeView,
    other: FileChangeView,
)
    requires
        tells_texts_apart(hash),
        change_part(hash, this) == change_part(hash, other),
    ensures
        other == (FileChangeView { file_path: other.file_path, ..this }) ==> other.file_path
            == this.file_path,
        other == (FileChangeView { status: other.status, ..this }) ==> other.status == this.status,
        other == (FileChangeView { old_file_path: other.old_file_path, ..this })
            ==> are_the_same_text(other.old_file_path, this.old_file_path),
        other == (FileChangeView { before_content: other.before_content, ..this })
            ==> are_the_same_content(hash, other.before_content, this.before_content),
        other == (FileChangeView { after_content: other.after_content, ..this })
            ==> are_the_same_content(hash, other.after_content, this.after_content),
{
    let x = lemma_change_pieces(hash, this);
    let y = lemma_change_pieces(hash, other);
    if other == (FileChangeView { file_path: other.file_path, ..this }) {
        lemma_one_piece(x, y, 0);
    }
    if other == (FileChangeView { status: other.status, ..this }) {
        lemma_one_piece(x, y, 2);
        lemma_status_labels(this.status, other.status);
    }
    if other == (FileChangeView { old_file_path: other.old_file_path, ..this }) {
        lemma_one_piece(x, y, 4);
        lemma_same_text(other.old_file_path, this.old_file_path);
    }
    if other == (FileChangeView { before_content: other.before_content, ..this }) {
        lemma_one_piece(x, y, 6);
        lemma_same_content(hash, other.before_content, this.before_content);
    }
    if other == (FileChangeView { after_content: other.after_content, ..this }) {
        lemma_one_piece(x, y, 8);
        lemma_same_content(hash, other.after_content, this.after_content);
    }
}

proof fn lemma_change_pieces<H: Fn(&str) -> String>(hash: H, change: FileChangeView) -> (pieces:
    Seq<Seq<char>>)
    ensures
        flattened(pieces) == change_part(hash, change),
        pieces.len() == 9,
        pieces[0] == change.file_path,
        pieces[1] == ":"@,
        pieces[2] == status_label(change.status),
        pieces[3] == ":"@,
        pieces[4] == text_or(change.old_file_path, ""@),
        pieces[5] == ":"@,
        pieces[6] == digest_or_empty(hash, change.before_content),
        pieces[7] == ":"@,
        pieces[8] == digest_or_empty(hash, change.after_content),
{
    let p0 = seq![change.file_path];
    lemma_flattened_of_one(change.file_path);
    let p1 = p0.push(":"@);
    lemma_piece_more(p0, ":"@);
    let p2 = p1.push(status_label(change.status));
    lemma_piece_more(p1, status_label(change.status));
    let p3 = p2.push(":"@);
    lemma_piece_more(p2, ":"@);
    let p4 = p3.push(text_or(change.old_file_path, ""@));
    lemma_piece_more(p3, text_or(change.old_file_path, ""@));
    let p5 = p4.push(":"@);
    lemma_piece_more(p4, ":"@);
    let p6 = p5.push(digest_or_empty(hash, change.before_content));
    lemma_piece_more(p5, digest_or_empty(hash, change.before_content));
    let p7 = p6.push(":"@);
    lemma_piece_more(p6, ":"@);
    let p8 = p7.push(digest_or_empty(hash, change.after_content));
    lemma_piece_more(p7, digest_or_empty(hash, change.after_content));
    p8
}

/// The key of a diff is different where a hunk has another index, another id, or
/// other lines on either side.
#[verifier::rlimit(40)]
pub proof fn law_the_key_of_a_diff_changes_with_each_hunk<H: Fn(&str) -> String>(
    hash: H,
    changes: Seq<FileChangeView>,
    i: int,
    k: int,
    other: HunkView,
    options: OptionsView,
)
    requires
        tells_texts_apart(hash),
        0 <= i < changes.len(),
        0 <= k < changes[i].hunks.len(),
        diff_key(hash, changes, options) == diff_key(
            hash,
            changes.update(
                i,
                FileChangeView { hunks: changes[i].hunks.update(k, other), ..changes[i] },
            ),
            options,
        ),
    ensures
        ({
            let this = changes[i].hunks[k];
            &&& other == (HunkView { hunk_index: other.hunk_index, ..this }) ==> other.hunk_index
                == this.hunk_index
            &&& other == (HunkView { hunk_id: other.hunk_id, ..this }) ==> are_the_same_text(
                other.hunk_id,
                this.hunk_id,
            )
            &&& other == (HunkView { old_range: other.old_range, ..this }) ==> other.old_range
                == this.old_range
            &&& other == (HunkView { new_range: other.new_range, ..this }) ==> other.new_range
                == this.new_range
        }),
{
    let this = changes[i].hunks[k];
    let with = FileChangeView { hunks: changes[i].hunks.update(k, other), ..changes[i] };
    let (front, back) = lemma_diff_parts(hash, changes, i, with, options);
    let a = diff_parts(hash, changes, options);
    let b = diff_parts(hash, changes.update(i, with), options);
    let p = change_parts(hash, changes[i]);
    let q = change_parts(hash, with);
    let n = front.len() + 1 + k;
    assert(change_part(hash, changes[i]) == change_part(hash, with));
    assert(p[k + 1] == hunk_part(this));
    assert(q[k + 1] == hunk_part(other));
    assert(a[n] == p[k + 1]);
    assert(b[n] == q[k + 1]);
    assert forall|j: int| 0 <= j < p.len() && j != k + 1 implies #[trigger] p[j] == q[j] by {
        if j > 0 {
            assert(p[j] == hunk_part(changes[i].hunks[j - 1]));
            assert(q[j] == hunk_part(with.hunks[j - 1]));
        }
    }
    assert forall|j: int| 0 <= j < a.len() && j != n implies #[trigger] a[j] == b[j] by {
        let m = j - front.len();
        if 0 <= m < p.len() {
            assert(a[j] == p[m] && b[j] == q[m]);
        }
    }
    lemma_one_part(hash, "diff"@, a, b, n);
    let x = lemma_hunk_pieces(this);
    let y = lemma_hunk_pieces(other);
    if other == (HunkView { hunk_index: other.hunk_index, ..this }) {
        lemma_one_piece(x, y, 1);
        lemma_decimal_injective(this.hunk_index as nat, other.hunk_index as nat);
    }
    if other == (HunkView { hunk_id: other.hunk_id, ..this }) {
        lemma_one_piece(x, y, 3);
        lemma_same_text(other.hunk_id, this.hunk_id);
    }
    if other == (HunkView { old_range: other.old_range, ..this }) {
        lemma_one_piece(x, y, 7);
        lemma_debug_ranges(this.old_range, other.old_range);
    }
    if other == (HunkView { new_range: other.new_range, ..this }) {
        lemma_one_piece(x, y, 9);
        lemma_debug_ranges(this.new_range, other.new_range);
    }
}

proof fn lemma_hunk_pieces(hunk: HunkView) -> (pieces: Seq<Seq<char>>)
    ensures
        flattened(pieces) == hunk_part(hunk),
        pieces.len() == 10,
        pieces[0] == "hunk:"@,
        pieces[1] == decimal(hunk.hunk_index as nat),
        pieces[2] == ":"@,
        pieces[3] == text_or(hunk.hunk_id, ""@),
        pieces[4] == ":"@,
        pieces[5] == debug_option(hunk.hunk_header),
        pieces[6] == ":"@,
        pieces[7] == debug_range(hunk.old_range),
        pieces[8] == ":"@,
        pieces[9] == debug_range(hunk.new_range),
{
    let p0 = seq!["hunk:"@];
    lemma_flattened_of_one("hunk:"@);
    let p1 = p0.push(decimal(hunk.hunk_index as nat));
    lemma_piece_more(p0, decimal(hunk.hunk_index as nat));
    let p2 = p1.push(":"@);
    lemma_piece_more(p1, ":"@);
    let p3 = p2.push(text_or(hunk.hunk_id, ""@));
    lemma_piece_more(p2, text_or(hunk.hunk_id, ""@));
    let p4 = p3.push(":"@);
    lemma_piece_more(p3, ":"@);
    let p5 = p4.push(debug_option(hunk.hunk_header));
    lemma_piece_more(p4, debug_option(hunk.hunk_header));
    let p6 = p5.push(":"@);
    lemma_piece_more(p5, ":"@);
    let p7 = p6.push(debug_range(hunk.old_range));
    lemma_piece_more(p6, debug_range(hunk.old_range));
    let p8 = p7.push(":"@);
    lemma_piece_more(p7, ":"@);
    let p9 = p8.push(debug_range(hunk.new_range));
    lemma_piece_more(p8, debug_range(hunk.new_range));
    p9
}

// ---------------------------------------------------------------------------
// Searches

proof fn lemma_scan_pieces(options: ScanOptionsView) -> (pieces: Seq<Seq<char>>)
    ensures
        flattened(pieces) == scan_part(options),
        pieces.len() == 8,
        pieces[0] == "scan:"@,
        pieces[1] == decimal(options.max_files as nat),
        pieces[2] == ":"@,
        pieces[3] == decimal(options.max_file_bytes as nat),
        pieces[4] == ":"@,
        pieces[5] == decimal(options.max_depth as nat),
        pieces[6] == ":"@,
        pieces[7] == bool_word(options.include_hidden),
{
    let p0 = seq!["scan:"@];
    lemma_flattened_of_one("scan:"@);
    let p1 = p0.push(decimal(options.max_files as nat));
    lemma_piece_more(p0, decimal(options.max_files as nat));
    let p2 = p1.push(":"@);
    lemma_piece_more(p1, ":"@);
    let p3 = p2.push(decimal(options.max_file_bytes as nat));
    lemma_piece_more(p2, decimal(options.max_file_bytes as nat));
    let p4 = p3.push(":"@);
    lemma_piece_more(p3, ":"@);
    let p5 = p4.push(decimal(options.max_depth as nat));
    lemma_piece_more(p4, decimal(options.max_depth as nat));
    let p6 = p5.push(":"@);
    lemma_piece_more(p5, ":"@);
    let p7 = p6.push(bool_word(options.include_hidden));
    lemma_piece_more(p6, bool_word(options.include_hidden));
    p7
}

/// The key of what a search found is different where the root is another one,
/// where a bound is, where hidden files are wanted or not, and where another file
/// was found.
pub proof fn law_the_key_of_a_search_changes_with_what_it_depends_on<H: Fn(&str) -> String>(
    hash: H,
    root: Seq<char>,
    other_root: Seq<char>,
    scan: ScanOptionsView,
    other_scan: ScanOptionsView,
    options: OptionsView,
    files: Seq<Seq<char>>,
    i: int,
    other_file: Seq<char>,
)
    requires
        tells_texts_apart(hash),
        0 <= i < files.len(),
    ensures
        ({
            let key = discovery_key(hash, root, scan, options, files);
            &&& key == discovery_key(hash, other_root, scan, options, files) ==> root == other_root
            &&& key == discovery_key(hash, root, other_scan, options, files) ==> {
                &&& other_scan == (ScanOptionsView { max_files: other_scan.max_files, ..scan })
                    ==> other_scan.max_files == scan.max_files
                &&& other_scan == (ScanOptionsView {
                    max_file_bytes: other_scan.max_file_bytes,
                    ..scan
                }) ==> other_scan.max_file_bytes == scan.max_file_bytes
                &&& other_scan == (ScanOptionsView { max_depth: other_scan.max_depth, ..scan })
                    ==> other_scan.max_depth == scan.max_depth
                &&& other_scan == (ScanOptionsView {
                    include_hidden: other_scan.include_hidden,
                    ..scan
                }) ==> other_scan.include_hidden == scan.include_hidden
            }
            &&& key == discovery_key(hash, root, scan, options, files.update(i, other_file))
                ==> files[i] == other_file
        }),
{
    let kind = "discover"@;
    let key = discovery_key(hash, root, scan, options, files);
    let part = options_part(options);
    let all = seq![root, part, scan_part(scan)] + files;
    if key == discovery_key(hash, other_root, scan, options, files) {
        lemma_one_part(hash, kind, all, seq![other_root, part, scan_part(scan)] + files, 0);
    }
    if key == discovery_key(hash, root, other_scan, options, files) {
        lemma_one_part(hash, kind, all, seq![root, part, scan_part(other_scan)] + files, 2);
        let x = lemma_scan_pieces(scan);
        let y = lemma_scan_pieces(other_scan);
        if other_scan == (ScanOptionsView { max_files: other_scan.max_files, ..scan }) {
            lemma_one_piece(x, y, 1);
            lemma_decimal_injective(scan.max_files as nat, other_scan.max_files as nat);
        }
        if other_scan == (ScanOptionsView { max_file_bytes: other_scan.max_file_bytes, ..scan }) {
            lemma_one_piece(x, y, 3);
            lemma_decimal_injective(scan.max_file_bytes as nat, other_scan.max_file_bytes as nat);
        }
        if other_scan == (ScanOptionsView { max_depth: other_scan.max_depth, ..scan }) {
            lemma_one_piece(x, y, 5);
            lemma_decimal_injective(scan.max_depth as nat, other_scan.max_depth as nat);
        }
        if other_scan == (ScanOptionsView { include_hidden: other_scan.include_hidden, ..scan }) {
            lemma_one_piece(x, y, 7);
            lemma_bool_words(scan.include_hidden, other_scan.include_hidden);
        }
    }
    if key == discovery_key(hash, root, scan, options, files.update(i, other_file)) {
        let others = seq![root, part, scan_part(scan)] + files.update(i, other_file);
        assert(all[i + 3] == files[i]);
        assert(others[i + 3] == other_file);
        lemma_one_part(hash, kind, all, others, i + 3);
    }
}

// ---------------------------------------------------------------------------
// Impact contexts

proof fn lemma_impact_pieces(
    file_paths: Seq<Seq<char>>,
    target: TargetView,
    request: SemImpactRequest,
) -> (pieces: Seq<Seq<char>>)
    ensures
        flattened(pieces) == impact_request_part(file_paths, target, request),
        pieces.len() == 12,
        pieces[0] == "files:"@,
        pieces[1] == joined(sorted_texts(file_paths), ","@),
        pieces[2] == ":target:"@,
        pieces[3] == text_or(target.entity_id, ""@),
        pieces[4] == ":"@,
        pieces[5] == text_or(target.entity_name, ""@),
        pieces[6] == ":"@,
        pieces[7] == text_or(target.file_path, ""@),
        pieces[8] == ":request:"@,
        pieces[9] == decimal(request.token_budget as nat),
        pieces[10] == ":"@,
        pieces[11] == decimal(request.max_depth as nat),
{
    let p0 = seq!["files:"@];
    lemma_flattened_of_one("files:"@);
    let p1 = p0.push(joined(sorted_texts(file_paths), ","@));
    lemma_piece_more(p0, joined(sorted_texts(file_paths), ","@));
    let p2 = p1.push(":target:"@);
    lemma_piece_more(p1, ":target:"@);
    let p3 = p2.push(text_or(target.entity_id, ""@));
    lemma_piece_more(p2, text_or(target.entity_id, ""@));
    let p4 = p3.push(":"@);
    lemma_piece_more(p3, ":"@);
    let p5 = p4.push(text_or(target.entity_name, ""@));
    lemma_piece_more(p4, text_or(target.entity_name, ""@));
    let p6 = p5.push(":"@);
    lemma_piece_more(p5, ":"@);
    let p7 = p6.push(text_or(target.file_path, ""@));
    lemma_piece_more(p6, text_or(target.file_path, ""@));
    let p8 = p7.push(":request:"@);
    lemma_piece_more(p7, ":request:"@);
    let p9 = p8.push(decimal(request.token_budget as nat));
    lemma_piece_more(p8, decimal(request.token_budget as nat));
    let p10 = p9.push(":"@);
    lemma_piece_more(p9, ":"@);
    let p11 = p10.push(decimal(request.max_depth as nat));
    lemma_piece_more(p10, decimal(request.max_depth as nat));
    p11
}

proof fn lemma_request_pieces(request: SemImpactRequest) -> (pieces: Seq<Seq<char>>)
    ensures
        flattened(pieces) == request_part(request),
        pieces.len() == 4,
        pieces[0] == "request:"@,
        pieces[1] == decimal(request.token_budget as nat),
        pieces[2] == ":"@,
        pieces[3] == decimal(request.max_depth as nat),
{
    let p0 = seq!["request:"@];
    lemma_flattened_of_one("request:"@);
    let p1 = p0.push(decimal(request.token_budget as nat));
    lemma_piece_more(p0, decimal(request.token_budget as nat));
    let p2 = p1.push(":"@);
    lemma_piece_more(p1, ":"@);
    let p3 = p2.push(decimal(request.max_depth as nat));
    lemma_piece_more(p2, decimal(request.max_depth as nat));
    p3
}

/// The key of an impact context is different where the graph is another one,
/// where the target has another id, name or file, and where a bound is another.
pub proof fn law_the_key_of_an_impact_changes_with_what_it_depends_on<H: Fn(&str) -> String>(
    hash: H,
    graph_key: Seq<char>,
    other_key: Seq<char>,
    file_paths: Seq<Seq<char>>,
    target: TargetView,
    other: TargetView,
    request: SemImpactRequest,
    other_request: SemImpactRequest,
)
    requires
        tells_texts_apart(hash),
    ensures
        ({
            let key = impact_key(hash, graph_key, file_paths, target, request);
            &&& key == impact_key(hash, other_key, file_paths, target, request) ==> graph_key
                == other_key
            &&& key == impact_key(hash, graph_key, file_paths, other, request) ==> {
                &&& other == (TargetView { entity_id: other.entity_id, ..target })
                    ==> are_the_same_text(other.entity_id, target.entity_id)
                &&& other == (TargetView { entity_name: other.entity_name, ..target })
                    ==> are_the_same_text(other.entity_name, target.entity_name)
                &&& other == (TargetView { file_path: other.file_path, ..target })
                    ==> are_the_same_text(other.file_path, target.file_path)
            }
            &&& key == impact_key(hash, graph_key, file_paths, target, other_request) ==> {
                &&& other_request.max_depth == request.max_depth ==> other_request.token_budget
                    == request.token_budget
                &&& other_request.token_budget == request.token_budget ==> other_request.max_depth
                    == request.max_depth
            }
        }),
{
    let kind = "impact"@;
    let key = impact_key(hash, graph_key, file_paths, target, request);
    let part = impact_request_part(file_paths, target, request);
    let all = seq![graph_key, part];
    let x = lemma_impact_pieces(file_paths, target, request);
    if key == impact_key(hash, other_key, file_paths, target, request) {
        lemma_one_part(hash, kind, all, seq![other_key, part], 0);
    }
    if key == impact_key(hash, graph_key, file_paths, other, request) {
        lemma_one_part(
            hash,
            kind,
            all,
            seq![graph_key, impact_request_part(file_paths, other, request)],
            1,
        );
        let y = lemma_impact_pieces(file_paths, other, request);
        if other == (TargetView { entity_id: other.entity_id, ..target }) {
            lemma_one_piece(x, y, 3);
            lemma_same_text(other.entity_id, target.entity_id);
        }
        if other == (TargetView { entity_name: other.entity_name, ..target }) {
            lemma_one_piece(x, y, 5);
            lemma_same_text(other.entity_name, target.entity_name);
        }
        if other == (TargetView { file_path: other.file_path, ..target }) {
            lemma_one_piece(x, y, 7);
            lemma_same_text(other.file_path, target.file_path);
        }
    }
    if key == impact_key(hash, graph_key, file_paths, target, other_request) {
        lemma_one_part(
            hash,
            kind,
            all,
            seq![graph_key, impact_request_part(file_paths, target, other_request)],
            1,
        );
        let y = lemma_impact_pieces(file_paths, target, other_request);
        if other_request.max_depth == request.max_depth {
            lemma_one_piece(x, y, 9);
            lemma_decimal_injective(
                request.token_budget as nat,
                other_request.token_budget as nat,
            );
        }
        if other_request.token_budget == request.token_budget {
            lemma_one_piece(x, y, 11);
            lemma_decimal_injective(request.max_depth as nat, other_request.max_depth as nat);
        }
    }
}

/// The keys of a resolved focus target and of the impact of a diff are different
/// where the diff has another key or the target is written otherwise; the second
/// one also where the graph is another one or a bound is.
pub proof fn law_keys_of_targets_change_with_what_they_depend_on<H: Fn(&str) -> String>(
    hash: H,
    file_paths: Seq<Seq<char>>,
    changes: Seq<FileChangeView>,
    other_changes: Seq<FileChangeView>,
    target: FocusTargetView,
    other: FocusTargetView,
    request: SemImpactRequest,
    other_request: SemImpactRequest,
    options: OptionsView,
    graph_key: Seq<char>,
    other_key: Seq<char>,
)
    requires
        tells_texts_apart(hash),
    ensures
        focus_key(hash, changes, target, options) == focus_key(
            hash,
            other_changes,
            target,
            options,
        ) ==> diff_key(hash, changes, options) == diff_key(hash, other_changes, options),
        focus_key(hash, changes, target, options) == focus_key(hash, changes, other, options)
            ==> json_focus_target(target) == json_focus_target(other),
        ({
            let key = diff_impact_key(
                hash,
                file_paths,
                changes,
                target,
                request,
                options,
                graph_key,
            );
            &&& key == diff_impact_key(
                hash,
                file_paths,
                changes,
                target,
                request,
                options,
                other_key,
            ) ==> graph_key == other_key
            &&& key == diff_impact_key(
                hash,
                file_paths,
                other_changes,
                target,
                request,
                options,
                graph_key,
            ) ==> diff_key(hash, changes, options) == diff_key(hash, other_changes, options)
            &&& key == diff_impact_key(
                hash,
                file_paths,
                changes,
                other,
                request,
                options,
                graph_key,
            ) ==> json_focus_target(target) == json_focus_target(other)
            &&& key == diff_impact_key(
                hash,
                file_paths,
                changes,
                target,
                other_request,
                options,
                graph_key,
            ) ==> {
                &&& other_request.max_depth == request.max_depth ==> other_request.token_budget
                    == request.token_budget
                &&& other_request.token_budget == request.token_budget ==> other_request.max_depth
                    == request.max_depth
            }
        }),
{
    let diff = diff_key(hash, changes, options);
    let other_diff = diff_key(hash, other_changes, options);
    let text = json_focus_target(target);
    let other_text = json_focus_target(other);
    if focus_key(hash, changes, target, options) == focus_key(
        hash,
        other_changes,
        target,
        options,
    ) {
        lemma_one_part(hash, "focus"@, seq![diff, text], seq![other_diff, text], 0);
    }
    if focus_key(hash, changes, target, options) == focus_key(hash, changes, other, options) {
        lemma_one_part(hash, "focus"@, seq![diff, text], seq![diff, other_text], 1);
    }
    let kind = "diff-impact"@;
    let bounds = request_part(request);
    let paths = joined(sorted_texts(file_paths), "\n"@);
    let all = seq![graph_key, diff, text, bounds, paths];
    let key = diff_impact_key(hash, file_paths, changes, target, request, options, graph_key);
    if key == diff_impact_key(hash, file_paths, changes, target, request, options, other_key) {
        lemma_one_part(hash, kind, all, seq![other_key, diff, text, bounds, paths], 0);
    }
    if key == diff_impact_key(
        hash,
        file_paths,
        other_changes,
        target,
        request,
        options,
        graph_key,
    ) {
        lemma_one_part(hash, kind, all, seq![graph_key, other_diff, text, bounds, paths], 1);
    }
    if key == diff_impact_key(hash, file_paths, changes, other, request, options, graph_key) {
        lemma_one_part(hash, kind, all, seq![graph_key, diff, other_text, bounds, paths], 2);
    }
    if key == diff_impact_key(
        hash,
        file_paths,
        changes,
        target,
        other_request,
        options,
        graph_key,
    ) {
        lemma_one_part(
            hash,
            kind,
            all,
            seq![graph_key, diff, text, request_part(other_request), paths],
            3,
        );
        let x = lemma_request_pieces(request);
        let y = lemma_request_pieces(other_request);
        if other_request.max_depth == request.max_depth {
            lemma_one_piece(x, y, 1);
            lemma_decimal_injective(
                request.token_budget as nat,
                other_request.token_budget as nat,
            );
        }
        if other_request.token_budget == request.token_budget {
            lemma_one_piece(x, y, 3);
            lemma_decimal_injective(request.max_depth as nat, other_request.max_depth as nat);
        }
    }
}

// ---------------------------------------------------------------------------
// Review plans

proof fn lemma_layer_options_pieces(options: SemLayerGenerationOptions) -> (pieces: Seq<Seq<char>>)
    ensures
        flattened(pieces) == layer_options_part(options),
        pieces.len() == 3,
        pieces[0] == decimal(options.max_layers as nat),
        pieces[1] == ":"@,
        pieces[2] == decimal(options.max_changes_per_layer as nat),
{
    let p0 = seq![decimal(options.max_layers as nat)];
    lemma_flattened_of_one(decimal(options.max_layers as nat));
    let p1 = p0.push(":"@);
    lemma_piece_more(p0, ":"@);
    let p2 = p1.push(decimal(options.max_changes_per_layer as nat));
    lemma_piece_more(p1, decimal(options.max_changes_per_layer as nat));
    p2
}

proof fn lemma_atom_pieces(atom: AtomView) -> (pieces: Seq<Seq<char>>)
    ensures
        flattened(pieces) == atom_part(atom),
        pieces.len() == 21,
        pieces[0] == atom.atom_id,
        pieces[1] == ":"@,
        pieces[2] == atom.file_path,
        pieces[3] == ":"@,
        pieces[4] == text_or(atom.old_file_path, ""@),
        pieces[5] == ":"@,
        pieces[6] == text_or(atom.role, ""@),
        pieces[7] == ":"@,
        pieces[8] == debug_range(atom.old_range),
        pieces[9] == ":"@,
        pieces[10] == debug_range(atom.new_range),
        pieces[11] == ":"@,
        pieces[12] == joined(sorted_texts(atom.defined_symbols), ","@),
        pieces[13] == ":"@,
        pieces[14] == joined(sorted_texts(atom.referenced_symbols), ","@),
        pieces[15] == ":"@,
        pieces[16] == joined(decimals(atom.hunk_indices), ","@),
        pieces[17] == ":"@,
        pieces[18] == decimal(atom.changed_lines as nat),
        pieces[19] == ":"@,
        pieces[20] == bool_word(atom.manual_review),
{
    let p0 = seq![atom.atom_id];
    lemma_flattened_of_one(atom.atom_id);
    let p1 = p0.push(":"@);
    lemma_piece_more(p0, ":"@);
    let p2 = p1.push(atom.file_path);
    lemma_piece_more(p1, atom.file_path);
    let p3 = p2.push(":"@);
    lemma_piece_more(p2, ":"@);
    let p4 = p3.push(text_or(atom.old_file_path, ""@));
    lemma_piece_more(p3, text_or(atom.old_file_path, ""@));
    let p5 = p4.push(":"@);
    lemma_piece_more(p4, ":"@);
    let p6 = p5.push(text_or(atom.role, ""@));
    lemma_piece_more(p5, text_or(atom.role, ""@));
    let p7 = p6.push(":"@);
    lemma_piece_more(p6, ":"@);
    let p8 = p7.push(debug_range(atom.old_range));
    lemma_piece_more(p7, debug_range(atom.old_range));
    let p9 = p8.push(":"@);
    lemma_piece_more(p8, ":"@);
    let p10 = p9.push(debug_range(atom.new_range));
    lemma_piece_more(p9, debug_range(atom.new_range));
    let p11 = p10.push(":"@);
    lemma_piece_more(p10, ":"@);
    let p12 = p11.push(joined(sorted_texts(atom.defined_symbols), ","@));
    lemma_piece_more(p11, joined(sorted_texts(atom.defined_symbols), ","@));
    let p13 = p12.push(":"@);
    lemma_piece_more(p12, ":"@);
    let p14 = p13.push(joined(sorted_texts(atom.referenced_symbols), ","@));
    lemma_piece_more(p13, joined(sorted_texts(atom.referenced_symbols), ","@));
    let p15 = p14.push(":"@);
    lemma_piece_more(p14, ":"@);
    let p16 = p15.push(joined(decimals(atom.hunk_indices), ","@));
    lemma_piece_more(p15, joined(decimals(atom.hunk_indices), ","@));
    let p17 = p16.push(":"@);
    lemma_piece_more(p16, ":"@);
    let p18 = p17.push(decimal(atom.changed_lines as nat));
    lemma_piece_more(p17, decimal(atom.changed_lines as nat));
    let p19 = p18.push(":"@);
    lemma_piece_more(p18, ":"@);
    let p20 = p19.push(bool_word(atom.manual_review));
    lemma_piece_more(p19, bool_word(atom.manual_review));
    p20
}

proof fn lemma_layer_options_parts(a: SemLayerGenerationOptions, b: SemLayerGenerationOptions)
    requires
        layer_options_part(a) == layer_options_part(b),
    ensures
        a.max_layers == b.max_layers ==> a.max_changes_per_layer == b.max_changes_per_layer,
        a.max_changes_per_layer == b.max_changes_per_layer ==> a.max_layers == b.max_layers,
{
    let x = lemma_layer_options_pieces(a);
    let y = lemma_layer_options_pieces(b);
    if a.max_layers == b.max_layers {
        lemma_one_piece(x, y, 2);
        lemma_decimal_injective(
            a.max_changes_per_layer as nat,
            b.max_changes_per_layer as nat,
        );
    }
    if a.max_changes_per_layer == b.max_changes_per_layer {
        lemma_one_piece(x, y, 0);
        lemma_decimal_injective(a.max_layers as nat, b.max_layers as nat);
    }
}

/// The key of a review plan is different where the analysis has another key, and
/// where a bound is another one.
pub proof fn law_the_key_of_a_plan_changes_with_what_it_depends_on<H: Fn(&str) -> String>(
    hash: H,
    analysis_key: Seq<char>,
    other_key: Seq<char>,
    layer_options: SemLayerGenerationOptions,
    other_options: SemLayerGenerationOptions,
    options: OptionsView,
)
    requires
        tells_texts_apart(hash),
    ensures
        ({
            let key = review_layer_key(hash, analysis_key, layer_options, options);
            &&& key == review_layer_key(hash, other_key, layer_options, options) ==> analysis_key
                == other_key
            &&& key == review_layer_key(hash, analysis_key, other_options, options) ==> {
                &&& other_options.max_layers == layer_options.max_layers
                    ==> other_options.max_changes_per_layer == layer_options.max_changes_per_layer
                &&& other_options.max_changes_per_layer == layer_options.max_changes_per_layer
                    ==> other_options.max_layers == layer_options.max_layers
            }
        }),
{
    let kind = "review-layers"@;
    let part = options_part(options);
    let bounds = layer_options_part(layer_options);
    let all = seq![analysis_key, part, bounds];
    let key = review_layer_key(hash, analysis_key, layer_options, options);
    if key == review_layer_key(hash, other_key, layer_options, options) {
        lemma_one_part(hash, kind, all, seq![other_key, part, bounds], 0);
    }
    if key == review_layer_key(hash, analysis_key, other_options, options) {
        lemma_one_part(
            hash,
            kind,
            all,
            seq![analysis_key, part, layer_options_part(other_options)],
            2,
        );
        lemma_layer_options_parts(layer_options, other_options);
    }
}

/// The key of a review plan with atoms is different where the analysis has
/// another key, and where an atom has another id, file, file before, role, range
/// on either side, number of changed lines, or is left to manual review or not.
pub proof fn law_the_key_of_a_plan_with_atoms_changes_with_each_atom<H: Fn(&str) -> String>(
    hash: H,
    analysis_key: Seq<char>,
    other_key: Seq<char>,
    atoms: Seq<AtomView>,
    i: int,
    other: AtomView,
    layer_options: SemLayerGenerationOptions,
    options: OptionsView,
)
    requires
        tells_texts_apart(hash),
        0 <= i < atoms.len(),
    ensures
        ({
            let key = review_atom_layer_key(hash, analysis_key, atoms, layer_options, options);
            let this = atoms[i];
            &&& key == review_atom_layer_key(hash, other_key, atoms, layer_options, options)
                ==> analysis_key == other_key
            &&& key == review_atom_layer_key(
                hash,
                analysis_key,
                atoms.update(i, other),
                layer_options,
                options,
            ) ==> {
                &&& other == (AtomView { atom_id: other.atom_id, ..this }) ==> other.atom_id
                    == this.atom_id
                &&& other == (AtomView { file_path: other.file_path, ..this }) ==> other.file_path
                    == this.file_path
                &&& other == (AtomView { old_file_path: other.old_file_path, ..this })
                    ==> are_the_same_text(other.old_file_path, this.old_file_path)
                &&& other == (AtomView { role: other.role, ..this }) ==> are_the_same_text(
                    other.role,
                    this.role,
                )
                &&& other == (AtomView { old_range: other.old_range, ..this }) ==> other.old_range
                    == this.old_range
                &&& other == (AtomView { new_range: other.new_range, ..this }) ==> other.new_range
                    == this.new_range
                &&& other == (AtomView { changed_lines: other.changed_lines, ..this })
                    ==> other.changed_lines == this.changed_lines
                &&& other == (AtomView { manual_review: other.manual_review, ..this })
                    ==> other.manual_review == this.manual_review
            }
        }),
{
    let kind = "review-atom-layers"@;
    let part = options_part(options);
    let bounds = layer_options_part(layer_options);
    let plan = review_layer_key(hash, analysis_key, layer_options, options);
    let f = |atom: AtomView| atom_part(atom);
    let all = seq![plan, part, bounds] + atoms.map_values(f);
    let key = review_atom_layer_key(hash, analysis_key, atoms, layer_options, options);
    if key == review_atom_layer_key(hash, other_key, atoms, layer_options, options) {
        let other_plan = review_layer_key(hash, other_key, layer_options, options);
        lemma_one_part(
            hash,
            kind,
            all,
            seq![other_plan, part, bounds] + atoms.map_values(f),
            0,
        );
        law_the_key_of_a_plan_changes_with_what_it_depends_on(
            hash,
            analysis_key,
            other_key,
            layer_options,
            layer_options,
            options,
        );
    }
    if key == review_atom_layer_key(
        hash,
        analysis_key,
        atoms.update(i, other),
        layer_options,
        options,
    ) {
        let others = seq![plan, part, bounds] + atoms.update(i, other).map_values(f);
        assert(all[i + 3] == atom_part(atoms[i]));
        assert(others[i + 3] == atom_part(other));
        lemma_one_part(hash, kind, all, others, i + 3);
        lemma_atom_parts_differ(atoms[i], other);
    }
}

proof fn lemma_atom_parts_differ(this: AtomView, other: AtomView)
    requires
        atom_part(this) == atom_part(other),
    ensures
        other == (AtomView { atom_id: other.atom_id, ..this }) ==> other.atom_id == this.atom_id,
        other == (AtomView { file_path: other.file_path, ..this }) ==> other.file_path
            == this.file_path,
        other == (AtomView { old_file_path: other.old_file_path, ..this }) ==> are_the_same_text(
            other.old_file_path,
            this.old_file_path,
        ),
        other == (AtomView { role: other.role, ..this }) ==> are_the_same_text(
            other.role,
            this.role,
        ),
        other == (AtomView { old_range: other.old_range, ..this }) ==> other.old_range
            == this.old_range,
        other == (AtomView { new_range: other.new_range, ..this }) ==> other.new_range
            == this.new_range,
        other == (AtomView { changed_lines: other.changed_lines, ..this }) ==> other.changed_lines
            == this.changed_lines,
        other == (AtomView { manual_review: other.manual_review, ..this }) ==> other.manual_review
            == this.manual_review,
{
    let x = lemma_atom_pieces(this);
    let y = lemma_atom_pieces(other);
    if other == (AtomView { atom_id: other.atom_id, ..this }) {
        lemma_one_piece(x, y, 0);
    }
    if other == (AtomView { file_path: other.file_path, ..this }) {
        lemma_one_piece(x, y, 2);
    }
    if other == (AtomView { old_file_path: other.old_file_path, ..this }) {
        lemma_one_piece(x, y, 4);
        lemma_same_text(other.old_file_path, this.old_file_path);
    }
    if other == (AtomView { role: other.role, ..this }) {
        lemma_one_piece(x, y, 6);
        lemma_same_text(other.role, this.role);
    }
    if other == (AtomView { old_range: other.old_range, ..this }) {
        lemma_one_piece(x, y, 8);
        lemma_debug_ranges(this.old_range, other.old_range);
    }
    if other == (AtomView { new_range: other.new_range, ..this }) {
        lemma_one_piece(x, y, 10);
        lemma_debug_ranges(this.new_range, other.new_range);
    }
    if other == (AtomView { changed_lines: other.changed_lines, ..this }) {
        lemma_one_piece(x, y, 18);
        lemma_decimal_injective(this.changed_lines as nat, other.changed_lines as nat);
    }
    if other == (AtomView { manual_review: other.manual_review, ..this }) {
        lemma_one_piece(x, y, 20);
        lemma_bool_words(this.manual_review, other.manual_review);
    }
}

// ---------------------------------------------------------------------------
// Lists in keys

/// Whether no text of a list holds a character.
pub open spec fn none_holds(texts: Seq<Seq<char>>, c: char) -> bool {
    forall|i: int| 0 <= i < texts.len() ==> !(#[trigger] texts[i]).contains(c)
}

proof fn lemma_behind_last(x: Seq<char>, p: Seq<char>, y: Seq<char>, q: Seq<char>, c: char)
    requires
        x + seq![c] + p == y + seq![c] + q,
        !p.contains(c),
        !q.contains(c),
    ensures
        x == y,
        p == q,
{
    let s = x + seq![c] + p;
    let t = y + seq![c] + q;
    let n = x.len() as int;
    let m = y.len() as int;
    assert(s.len() == n + 1 + p.len());
    assert(t.len() == m + 1 + q.len());
    assert(s[n] == c);
    assert(t[m] == c);
    if n < m {
        assert(s[m] == p[m - n - 1]);
        assert(p.contains(c));
    } else if m < n {
        assert(t[n] == q[n - m - 1]);
        assert(q.contains(c));
    }
    assert(x =~= s.take(n));
    assert(y =~= t.take(m));
    assert(p =~= s.skip(n + 1));
    assert(q =~= t.skip(m + 1));
}

proof fn lemma_joined_apart(a: Seq<Seq<char>>, b: Seq<Seq<char>>, c: char)
    requires
        a.len() == b.len(),
        none_holds(a, c),
        none_holds(b, c),
        joined(a, seq![c]) == joined(b, seq![c]),
    ensures
        a == b,
    decreases a.len(),
{
    if a.len() == 0 {
        assert(a =~= b);
    } else if a.len() == 1 {
        assert(a =~= b);
    } else {
        let x = a.drop_last();
        let y = b.drop_last();
        let n = a.len() - 1;
        assert(!a[n].contains(c) && !b[n].contains(c));
        lemma_behind_last(joined(x, seq![c]), a.last(), joined(y, seq![c]), b.last(), c);
        assert forall|i: int| 0 <= i < x.len() implies !(#[trigger] x[i]).contains(c) by {
            assert(!a[i].contains(c));
        }
        assert forall|i: int| 0 <= i < y.len() implies !(#[trigger] y[i]).contains(c) by {
            assert(!b[i].contains(c));
        }
        lemma_joined_apart(x, y, c);
        assert(a =~= x.push(a.last()));
        assert(b =~= y.push(b.last()));
    }
}

proof fn lemma_sorted_apart(a: Seq<Seq<char>>, b: Seq<Seq<char>>, c: char)
    requires
        a.len() == b.len(),
        none_holds(a, c),
        none_holds(b, c),
        joined(sorted_texts(a), seq![c]) == joined(sorted_texts(b), seq![c]),
    ensures
        a.to_multiset() == b.to_multiset(),
{
    lemma_sorted_hold_none(a, c);
    lemma_sorted_hold_none(b, c);
    lemma_joined_apart(sorted_texts(a), sorted_texts(b), c);
}

proof fn lemma_sorted_hold_none(texts: Seq<Seq<char>>, c: char)
    requires
        none_holds(texts, c),
    ensures
        none_holds(sorted_texts(texts), c),
        sorted_texts(texts).to_multiset() == texts.to_multiset(),
        sorted_texts(texts).len() == texts.len(),
{
    broadcast use vstd::seq_lib::group_to_multiset_ensures;

    let sorted = sorted_texts(texts);
    lemma_sorted_texts(texts);
    assert(sorted.to_multiset().len() == sorted.len());
    assert(texts.to_multiset().len() == texts.len());
    assert forall|i: int| 0 <= i < sorted.len() implies !(#[trigger] sorted[i]).contains(c) by {
        assert(sorted.to_multiset().contains(sorted[i]));
        assert(texts.contains(sorted[i]));
        let k = choose|k: int| 0 <= k < texts.len() && texts[k] == sorted[i];
        assert(!texts[k].contains(c));
    }
}

proof fn lemma_decimals_hold_none(numbers: Seq<usize>)
    ensures
        none_holds(decimals(numbers), ','),
{
    let all = decimals(numbers);
    assert forall|i: int| 0 <= i < all.len() implies !(#[trigger] all[i]).contains(',') by {
        lemma_decimal_digits(numbers[i] as nat);
        if all[i].contains(',') {
            let k = choose|k: int| 0 <= k < all[i].len() && all[i][k] == ',';
            assert(is_digit(decimal(numbers[i] as nat)[k]));
        }
    }
}

/// The key of a review plan with atoms is different where an atom has other
/// hunks, defines another symbol or refers to another one. In which order its
/// symbols are given does not matter.
#[verifier::rlimit(40)]
pub proof fn law_the_key_of_a_plan_with_atoms_changes_with_each_list<H: Fn(&str) -> String>(
    hash: H,
    analysis_key: Seq<char>,
    atoms: Seq<AtomView>,
    i: int,
    other: AtomView,
    layer_options: SemLayerGenerationOptions,
    options: OptionsView,
)
    requires
        tells_texts_apart(hash),
        0 <= i < atoms.len(),
        none_holds(atoms[i].defined_symbols, ','),
        none_holds(other.defined_symbols, ','),
        none_holds(atoms[i].referenced_symbols, ','),
        none_holds(other.referenced_symbols, ','),
        other.defined_symbols.len() == atoms[i].defined_symbols.len(),
        other.referenced_symbols.len() == atoms[i].referenced_symbols.len(),
        other.hunk_indices.len() == atoms[i].hunk_indices.len(),
    ensures
        ({
            let this = atoms[i];
            let same = review_atom_layer_key(hash, analysis_key, atoms, layer_options, options)
                == review_atom_layer_key(
                hash,
                analysis_key,
                atoms.update(i, other),
                layer_options,
                options,
            );
            &&& other == (AtomView { defined_symbols: other.defined_symbols, ..this }) ==> (same
                <==> other.defined_symbols.to_multiset() == this.defined_symbols.to_multiset())
            &&& other == (AtomView { referenced_symbols: other.referenced_symbols, ..this }) ==> (
            same <==> other.referenced_symbols.to_multiset()
                == this.referenced_symbols.to_multiset())
            &&& other == (AtomView { hunk_indices: other.hunk_indices, ..this }) ==> (same
                <==> other.hunk_indices == this.hunk_indices)
        }),
{
    let kind = "review-atom-layers"@;
    let this = atoms[i];
    let part = options_part(options);
    let bounds = layer_options_part(layer_options);
    let plan = review_layer_key(hash, analysis_key, layer_options, options);
    let f = |atom: AtomView| atom_part(atom);
    let all = seq![plan, part, bounds] + atoms.map_values(f);
    let others = seq![plan, part, bounds] + atoms.update(i, other).map_values(f);
    let same = stable_key(hash, kind, all) == stable_key(hash, kind, others);
    let x = lemma_atom_pieces(this);
    let y = lemma_atom_pieces(other);
    reveal_strlit(",");
    assert(","@ =~= seq![',']);
    assert(all[i + 3] == atom_part(this));
    assert(others[i + 3] == atom_part(other));
    if same {
        lemma_one_part(hash, kind, all, others, i + 3);
    }
    if atom_part(this) == atom_part(other) {
        assert(all =~= others);
    }
    assert(same == (atom_part(this) == atom_part(other)));
    if other == (AtomView { defined_symbols: other.defined_symbols, ..this }) {
        if same {
            lemma_one_piece(x, y, 12);
            lemma_sorted_apart(this.defined_symbols, other.defined_symbols, ',');
        }
        if other.defined_symbols.to_multiset() == this.defined_symbols.to_multiset() {
            lemma_sorted_texts_unique(this.defined_symbols, other.defined_symbols);
            assert(x =~= y);
        }
    }
    if other == (AtomView { referenced_symbols: other.referenced_symbols, ..this }) {
        if same {
            lemma_one_piece(x, y, 14);
            lemma_sorted_apart(this.referenced_symbols, other.referenced_symbols, ',');
        }
        if other.referenced_symbols.to_multiset() == this.referenced_symbols.to_multiset() {
            lemma_sorted_texts_unique(this.referenced_symbols, other.referenced_symbols);
            assert(x =~= y);
        }
    }
    if other == (AtomView { hunk_indices: other.hunk_indices, ..this }) {
        if same {
            let a = decimals(this.hunk_indices);
            let b = decimals(other.hunk_indices);
            lemma_one_piece(x, y, 16);
            lemma_decimals_hold_none(this.hunk_indices);
            lemma_decimals_hold_none(other.hunk_indices);
            lemma_joined_apart(a, b, ',');
            assert forall|k: int| 0 <= k < this.hunk_indices.len() implies #[trigger]
            this.hunk_indices[k] == other.hunk_indices[k] by {
                assert(a[k] == b[k]);
                lemma_decimal_injective(
                    this.hunk_indices[k] as nat,
                    other.hunk_indices[k] as nat,
                );
            }
            assert(other.hunk_indices =~= this.hunk_indices);
        }
    }
}

// ---------------------------------------------------------------------------
// Graphs

proof fn lemma_options_hold_no_zero(options: OptionsView)
    ensures
        has_no_zero(options_part(options)),
{
    reveal_strlit("opts:semrc=");
    reveal_strlit(":gitattributes=");
    reveal_strlit("true");
    reveal_strlit("false");
    assert(has_no_zero("opts:semrc="@) && has_no_zero(":gitattributes="@));
    assert(has_no_zero("true"@) && has_no_zero("false"@));
    lemma_no_zero_concat("opts:semrc="@, bool_word(options.load_semrc));
    lemma_no_zero_concat("opts:semrc="@ + bool_word(options.load_semrc), ":gitattributes="@);
    lemma_no_zero_concat(
        "opts:semrc="@ + bool_word(options.load_semrc) + ":gitattributes="@,
        bool_word(options.load_gitattributes),
    );
}

proof fn lemma_no_zero_concat(a: Seq<char>, b: Seq<char>)
    requires
        has_no_zero(a),
        has_no_zero(b),
    ensures
        has_no_zero(a + b),
{
    assert forall|i: int| 0 <= i < (a + b).len() implies #[trigger] (a + b)[i] != '\0' by {
        if i >= a.len() {
            assert((a + b)[i] == b[i - a.len()]);
        }
    }
}

proof fn lemma_sorted_have_no_zero(texts: Seq<Seq<char>>)
    requires
        have_no_zero(texts),
    ensures
        have_no_zero(sorted_texts(texts)),
        sorted_texts(texts).to_multiset() == texts.to_multiset(),
        sorted_texts(texts).len() == texts.len(),
{
    broadcast use vstd::seq_lib::group_to_multiset_ensures;

    let sorted = sorted_texts(texts);
    lemma_sorted_texts(texts);
    assert(sorted.to_multiset().len() == sorted.len());
    assert(texts.to_multiset().len() == texts.len());
    assert forall|i: int| 0 <= i < sorted.len() implies has_no_zero(#[trigger] sorted[i]) by {
        assert(sorted.to_multiset().contains(sorted[i]));
        assert(texts.contains(sorted[i]));
        let k = choose|k: int| 0 <= k < texts.len() && texts[k] == sorted[i];
        assert(has_no_zero(texts[k]));
    }
}

/// The id of an entity and the hash of its content.
pub open spec fn marks_of(entities: Seq<EntityView>) -> Seq<Seq<char>> {
    entities.map_values(|entity: EntityView| entity.id + ":"@ + entity.content_hash)
}

proof fn lemma_graph_parts<H: Fn(&str) -> String>(
    hash: H,
    root: Seq<char>,
    file_paths: Seq<Seq<char>>,
    options: OptionsView,
    entities: Seq<EntityView>,
) -> (parts: Seq<Seq<char>>)
    requires
        has_no_zero(root),
        have_no_zero(file_paths),
        have_no_zero(marks_of(entities)),
    ensures
        repo_graph_key(hash, root, file_paths, options, entities) == stable_key(
            hash,
            "repo-graph"@,
            parts,
        ),
        have_no_zero(parts),
        parts.len() == 2 + file_paths.len() + entities.len(),
        parts[0] == root,
        parts[1] == options_part(options),
        forall|k: int|
            0 <= k < file_paths.len() ==> #[trigger] parts[2 + k] == "path:"@ + sorted_texts(
                file_paths,
            )[k],
        parts.skip((2 + file_paths.len()) as int) == sorted_texts(marks_of(entities)),
{
    let paths = sorted_texts(file_paths).map_values(|path: Seq<char>| path_part(path));
    let marks = entities.map_values(|entity: EntityView| entity_part(entity));
    let parts = seq![root, options_part(options)] + paths + sorted_texts(marks);
    assert(marks =~= marks_of(entities));
    lemma_options_hold_no_zero(options);
    lemma_sorted_have_no_zero(file_paths);
    lemma_sorted_have_no_zero(marks);
    reveal_strlit("path:");
    assert(has_no_zero("path:"@));
    assert forall|i: int| 0 <= i < parts.len() implies has_no_zero(#[trigger] parts[i]) by {
        if 2 <= i < 2 + paths.len() {
            assert(parts[i] == "path:"@ + sorted_texts(file_paths)[i - 2]);
            assert(has_no_zero(sorted_texts(file_paths)[i - 2]));
            lemma_no_zero_concat("path:"@, sorted_texts(file_paths)[i - 2]);
        } else if i >= 2 + paths.len() {
            assert(parts[i] == sorted_texts(marks)[i - 2 - paths.len()]);
            assert(has_no_zero(sorted_texts(marks)[i - 2 - paths.len()]));
        }
    }
    assert(parts.skip((2 + file_paths.len()) as int) =~= sorted_texts(marks));
    parts
}

/// The key of a graph is the same, for as many files, just if it is of the same
/// root, loads the same configuration, names the same files and holds the same
/// entities with the same contents, in whatever order.
pub proof fn law_the_key_of_a_graph_changes_with_what_it_holds<H: Fn(&str) -> String>(
    hash: H,
    root: Seq<char>,
    file_paths: Seq<Seq<char>>,
    options: OptionsView,
    entities: Seq<EntityView>,
    other_root: Seq<char>,
    other_paths: Seq<Seq<char>>,
    other_options: OptionsView,
    others: Seq<EntityView>,
)
    requires
        tells_texts_apart(hash),
        has_no_zero(root),
        has_no_zero(other_root),
        have_no_zero(file_paths),
        have_no_zero(other_paths),
        have_no_zero(marks_of(entities)),
        have_no_zero(marks_of(others)),
        file_paths.len() == other_paths.len(),
    ensures
        repo_graph_key(hash, root, file_paths, options, entities) == repo_graph_key(
            hash,
            other_root,
            other_paths,
            other_options,
            others,
        ) <==> {
            &&& root == other_root
            &&& options.load_semrc == other_options.load_semrc
            &&& options.load_gitattributes == other_options.load_gitattributes
            &&& file_paths.to_multiset() == other_paths.to_multiset()
            &&& marks_of(entities).to_multiset() == marks_of(others).to_multiset()
        },
{
    let kind = "repo-graph"@;
    let a = lemma_graph_parts(hash, root, file_paths, options, entities);
    let b = lemma_graph_parts(hash, other_root, other_paths, other_options, others);
    let n = (2 + file_paths.len()) as int;
    lemma_sorted_texts(file_paths);
    lemma_sorted_texts(other_paths);
    lemma_sorted_texts(marks_of(entities));
    lemma_sorted_texts(marks_of(others));
    lemma_sorted_have_no_zero(file_paths);
    lemma_sorted_have_no_zero(other_paths);
    reveal_strlit("repo-graph");
    if stable_key(hash, kind, a) == stable_key(hash, kind, b) {
        assert(digest(hash, key_text(kind, a)) == digest(hash, key_text(kind, b)));
        law_key_text_tells_parts_apart(kind, a, kind, b);
        lemma_options_parts(options, other_options);
        let x = sorted_texts(file_paths);
        let y = sorted_texts(other_paths);
        assert forall|k: int| 0 <= k < x.len() implies #[trigger] x[k] == y[k] by {
            assert(a[2 + k] == b[2 + k]);
            let front = "path:"@;
            assert(a[2 + k].skip(front.len() as int) =~= x[k]);
            assert(b[2 + k].skip(front.len() as int) =~= y[k]);
        }
        assert(x =~= y);
        assert(a.skip(n) == b.skip(n));
    }
    if root == other_root && options.load_semrc == other_options.load_semrc
        && options.load_gitattributes == other_options.load_gitattributes
        && file_paths.to_multiset() == other_paths.to_multiset() && marks_of(
        entities,
    ).to_multiset() == marks_of(others).to_multiset() {
        lemma_sorted_texts_unique(file_paths, other_paths);
        lemma_sorted_texts_unique(marks_of(entities), marks_of(others));
        assert forall|k: int| 0 <= k < file_paths.len() implies a[2 + k] == #[trigger] b[2
            + k] by {
            assert(a[2 + k] == "path:"@ + sorted_texts(file_paths)[k]);
        }
        assert(a =~= a.take(n) + a.skip(n));
        assert(b =~= b.take(n) + b.skip(n));
        assert(a.take(n) =~= b.take(n)) by {
            assert forall|k: int| 0 <= k < n implies #[trigger] a.take(n)[k] == b.take(n)[k] by {
                if k >= 2 {
                    assert(a[2 + (k - 2)] == b[2 + (k - 2)]);
                }
            }
        }
    }
}

} // verus!
