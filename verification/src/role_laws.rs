//! What role changes and atoms play, whatever it is called.

use vstd::prelude::*;

use crate::roles::{
    atom_key, change_key, config_path, is_test_atom, key_order, test_path, title_order,
};
use crate::search::{directory, ends_with, has_part, last_slash, lower, occurs_at};
use crate::types::{AtomView, EmbeddedChangeView};

verus! {

/// A text in small letters: `A` to `Z` become `a` to `z`.
pub open spec fn in_small_letters(text: Seq<char>) -> Seq<char> {
    Seq::new(
        text.len(),
        |i: int|
            if 'A' <= text[i] <= 'Z' {
                ((text[i] as int) + 32) as char
            } else {
                text[i]
            },
    )
}

/// Whether a text has a part somewhere: something stands before it, and
/// something behind.
pub open spec fn stands_within(part: Seq<char>, text: Seq<char>) -> bool {
    exists|front: Seq<char>, back: Seq<char>| #[trigger] (front + part + back) == text
}

/// Whether a text ends in a part.
pub open spec fn stands_at_the_end(part: Seq<char>, text: Seq<char>) -> bool {
    exists|front: Seq<char>| #[trigger] (front + part) == text
}

/// Whether a file is one of tests: it lies below a `test` or `tests` directory,
/// or is called so.
pub open spec fn is_test_file(path: Seq<char>) -> bool {
    let small = in_small_letters(path);
    ||| stands_within("/test/"@, small)
    ||| stands_within("/tests/"@, small)
    ||| stands_within(".test."@, small)
    ||| stands_within(".spec."@, small)
    ||| stands_at_the_end("_test.rs"@, small)
}

/// Whether a file is one of configuration.
pub open spec fn is_config_file(path: Seq<char>) -> bool {
    let small = in_small_letters(path);
    ||| stands_at_the_end(".toml"@, small)
    ||| stands_at_the_end(".yaml"@, small)
    ||| stands_at_the_end(".yml"@, small)
    ||| stands_at_the_end(".json"@, small)
    ||| stands_at_the_end(".lock"@, small)
}

/// Whether a path lies in a directory: directly below it, or nowhere else than in
/// the current one.
pub open spec fn lies_in(path: Seq<char>, dir: Seq<char>) -> bool {
    ||| exists|name: Seq<char>| #[trigger] (dir.push('/') + name) == path && !name.contains('/')
    ||| dir == "."@ && !path.contains('/')
}

/// What something is reviewed as.
pub enum ReviewRole {
    Configuration,
    Foundation,
    Code,
    Tests,
}

/// Where the layers of a role stand.
pub open spec fn rank(role: ReviewRole) -> int {
    match role {
        ReviewRole::Configuration => 1,
        ReviewRole::Foundation => 2,
        ReviewRole::Code => 3,
        ReviewRole::Tests => 4,
    }
}

/// Whether a change plays a role: by its file, and otherwise by the type of its
/// entity.
pub open spec fn change_plays(change: EmbeddedChangeView, role: ReviewRole) -> bool {
    let path = change.change.file_path;
    let kind = change.change.entity_type;
    let founds = kind == "struct"@ || kind == "class"@ || kind == "interface"@ || kind == "trait"@
        || kind == "type"@ || kind == "enum"@;
    match role {
        ReviewRole::Tests => is_test_file(path),
        ReviewRole::Configuration => !is_test_file(path) && is_config_file(path),
        ReviewRole::Foundation => !is_test_file(path) && !is_config_file(path) && founds,
        ReviewRole::Code => !is_test_file(path) && !is_config_file(path) && !founds,
    }
}

/// Whether the host said that an atom is one of tests.
pub open spec fn is_said_to_be_test(atom: AtomView) -> bool {
    atom.role matches Some(role) && (in_small_letters(role) == "test"@ || in_small_letters(role)
        == "tests"@)
}

/// Whether an atom plays a role: by what the host said, and otherwise by its
/// file.
pub open spec fn atom_plays(atom: AtomView, role: ReviewRole) -> bool {
    let tests = is_said_to_be_test(atom) || is_test_file(atom.file_path);
    let config = (atom.role matches Some(said) && in_small_letters(said) == "config"@)
        || is_config_file(atom.file_path);
    let founds = atom.role matches Some(said) && {
        let small = in_small_letters(said);
        small == "foundation"@ || small == "model"@ || small == "schema"@ || small == "type"@
    };
    match role {
        ReviewRole::Tests => tests,
        ReviewRole::Configuration => !tests && config,
        ReviewRole::Foundation => !tests && !config && founds,
        ReviewRole::Code => !tests && !config && !founds,
    }
}

/// What layers of a role, and for code of a directory, are grouped by.
pub open spec fn role_word(role: ReviewRole, dir: Seq<char>) -> Seq<char> {
    match role {
        ReviewRole::Configuration => "config"@,
        ReviewRole::Foundation => "foundation"@,
        ReviewRole::Code => "code:"@ + dir,
        ReviewRole::Tests => "tests"@,
    }
}

proof fn lemma_small(text: Seq<char>)
    ensures
        in_small_letters(text) == lower(text),
{
    assert(in_small_letters(text) =~= lower(text));
}

/// A part stands within a text just if it occurs there.
pub proof fn lemma_stands_within(part: Seq<char>, text: Seq<char>)
    ensures
        stands_within(part, text) == has_part(text, part),
        stands_at_the_end(part, text) == ends_with(text, part),
{
    if stands_within(part, text) {
        let (front, back) = choose|front: Seq<char>, back: Seq<char>| #[trigger]
            (front + part + back) == text;
        assert(text.subrange(front.len() as int, (front.len() + part.len()) as int) =~= part);
        assert(occurs_at(text, part, front.len() as int));
    }
    if has_part(text, part) {
        let i = choose|i: int| occurs_at(text, part, i);
        let front = text.take(i);
        let back = text.skip(i + part.len());
        assert(front + part + back =~= text) by {
            assert forall|k: int| 0 <= k < text.len() implies (front + part + back)[k] == text[k] by {
                if i <= k < i + part.len() {
                    assert(text.subrange(i, i + part.len())[k - i] == text[k]);
                }
            }
        }
    }
    if stands_at_the_end(part, text) {
        let front = choose|front: Seq<char>| #[trigger] (front + part) == text;
        assert(text.subrange(front.len() as int, (front.len() + part.len()) as int) =~= part);
    }
    if ends_with(text, part) {
        let i = text.len() - part.len();
        let front = text.take(i);
        assert(front + part =~= text) by {
            assert forall|k: int| 0 <= k < text.len() implies (front + part)[k] == text[k] by {
                if i <= k {
                    assert(text.subrange(i, i + part.len())[k - i] == text[k]);
                }
            }
        }
    }
}

proof fn lemma_file_roles(path: Seq<char>)
    ensures
        is_test_file(path) == test_path(path),
        is_config_file(path) == config_path(path),
{
    let small = lower(path);
    lemma_small(path);
    lemma_stands_within("/test/"@, small);
    lemma_stands_within("/tests/"@, small);
    lemma_stands_within(".test."@, small);
    lemma_stands_within(".spec."@, small);
    lemma_stands_within("_test.rs"@, small);
    lemma_stands_within(".toml"@, small);
    lemma_stands_within(".yaml"@, small);
    lemma_stands_within(".yml"@, small);
    lemma_stands_within(".json"@, small);
    lemma_stands_within(".lock"@, small);
}

proof fn lemma_words_are_small()
    ensures
        lower("tests"@) == "tests"@,
        lower("test"@) == "test"@,
        lower("config"@) == "config"@,
{
    reveal_strlit("tests");
    reveal_strlit("test");
    reveal_strlit("config");
    assert(lower("tests"@) =~= "tests"@);
    assert(lower("test"@) =~= "test"@);
    assert(lower("config"@) =~= "config"@);
}

/// A path lies in its directory, and in no other.
pub proof fn lemma_lies_in(path: Seq<char>, dir: Seq<char>)
    ensures
        lies_in(path, dir) <==> dir == directory(path),
    decreases path.len(),
{
    lemma_last_slash(path);
    match last_slash(path) {
        None => {
            if lies_in(path, dir) {
                if exists|name: Seq<char>| #[trigger]
                    (dir.push('/') + name) == path && !name.contains('/') {
                    let name = choose|name: Seq<char>| #[trigger]
                        (dir.push('/') + name) == path && !name.contains('/');
                    assert(path[dir.len() as int] == '/');
                    assert(path.contains('/'));
                }
            }
        },
        Some(n) => {
            assert(path[n] == '/');
            assert(path.contains('/'));
            if exists|name: Seq<char>| #[trigger]
                (dir.push('/') + name) == path && !name.contains('/') {
                let name = choose|name: Seq<char>| #[trigger]
                    (dir.push('/') + name) == path && !name.contains('/');
                let m = dir.len() as int;
                assert(path[m] == '/');
                if m < n {
                    assert(name[n - m - 1] == '/');
                }
                assert(dir =~= path.take(n));
            }
            if dir == path.take(n) {
                let name = path.skip(n + 1);
                assert(dir.push('/') + name =~= path);
                if name.contains('/') {
                    let k = choose|k: int| 0 <= k < name.len() && name[k] == '/';
                    assert(path[n + 1 + k] == '/');
                }
            }
        },
    }
}

proof fn lemma_last_slash(path: Seq<char>)
    ensures
        match last_slash(path) {
            Some(n) => {
                &&& 0 <= n < path.len()
                &&& path[n] == '/'
                &&& forall|k: int| n < k < path.len() ==> path[k] != '/'
            },
            None => !path.contains('/'),
        },
    decreases path.len(),
{
    if path.len() > 0 && path.last() != '/' {
        let front = path.drop_last();
        lemma_last_slash(front);
        match last_slash(front) {
            Some(n) => {
                assert forall|k: int| n < k < path.len() implies path[k] != '/' by {
                    if k < front.len() {
                        assert(front[k] == path[k]);
                    }
                }
            },
            None => {
                if path.contains('/') {
                    let k = choose|k: int| 0 <= k < path.len() && path[k] == '/';
                    assert(front[k] == '/');
                }
            },
        }
    }
}

/// The word that a change is grouped by is that of its role.
pub proof fn lemma_change_word(change: EmbeddedChangeView, role: ReviewRole, dir: Seq<char>)
    requires
        change_plays(change, role),
        role is Code ==> lies_in(change.change.file_path, dir),
    ensures
        change_key(change) == role_word(role, dir),
{
    lemma_file_roles(change.change.file_path);
    lemma_lies_in(change.change.file_path, dir);
}

/// The word that an atom is grouped by is that of its role.
pub proof fn lemma_atom_word(atom: AtomView, role: ReviewRole, dir: Seq<char>)
    requires
        atom_plays(atom, role),
        role is Code ==> lies_in(atom.file_path, dir),
    ensures
        atom_key(atom) == role_word(role, dir),
{
    lemma_file_roles(atom.file_path);
    lemma_lies_in(atom.file_path, dir);
    lemma_words_are_small();
    if let Some(said) = atom.role {
        lemma_small(said);
    }
}

/// The host said that an atom is one of tests just if it gave it that role.
pub proof fn lemma_said_to_be_test(atom: AtomView)
    ensures
        is_said_to_be_test(atom) == is_test_atom(atom),
{
    lemma_words_are_small();
    if let Some(said) = atom.role {
        lemma_small(said);
    }
}

/// Different roles, and different directories of code, have different words.
pub proof fn lemma_role_words(a: ReviewRole, x: Seq<char>, b: ReviewRole, y: Seq<char>)
    ensures
        role_word(a, x) == role_word(b, y) <==> a == b && (a is Code ==> x == y),
{
    reveal_strlit("config");
    reveal_strlit("foundation");
    reveal_strlit("code:");
    reveal_strlit("tests");
    let p = role_word(a, x);
    let q = role_word(b, y);
    assert("config"@.len() == 6 && "foundation"@.len() == 10 && "tests"@.len() == 5);
    assert("config"@[2] == 'n' && "foundation"@[0] == 'f' && "tests"@[0] == 't');
    assert("code:"@[0] == 'c' && "code:"@[2] == 'd');
    if a is Code {
        assert(p[0] == 'c' && p[2] == 'd');
    }
    if b is Code {
        assert(q[0] == 'c' && q[2] == 'd');
    }
    if a is Code && b is Code && p == q {
        assert(x =~= p.skip(5));
        assert(y =~= q.skip(5));
    }
}

/// Layers of roles stand in the order of their ranks.
pub proof fn lemma_rank(role: ReviewRole, dir: Seq<char>)
    ensures
        key_order(role_word(role, dir)) == match role {
            ReviewRole::Configuration => 0usize,
            ReviewRole::Foundation => 10,
            ReviewRole::Code => 40,
            ReviewRole::Tests => 90,
        },
{
    lemma_role_words(role, dir, ReviewRole::Configuration, dir);
    lemma_role_words(role, dir, ReviewRole::Foundation, dir);
    lemma_role_words(role, dir, ReviewRole::Tests, dir);
}

/// Every change plays one role, and every atom does; and every path lies in one
/// directory.
pub proof fn law_everything_plays_one_role(
    change: EmbeddedChangeView,
    atom: AtomView,
    path: Seq<char>,
    a: ReviewRole,
    b: ReviewRole,
    x: Seq<char>,
    y: Seq<char>,
)
    ensures
        exists|role: ReviewRole| #[trigger] change_plays(change, role),
        change_plays(change, a) && change_plays(change, b) ==> a == b,
        exists|role: ReviewRole| #[trigger] atom_plays(atom, role),
        atom_plays(atom, a) && atom_plays(atom, b) ==> a == b,
        exists|dir: Seq<char>| #[trigger] lies_in(path, dir),
        lies_in(path, x) && lies_in(path, y) ==> x == y,
{
    assert(change_plays(change, ReviewRole::Tests) || change_plays(change, ReviewRole::Configuration)
        || change_plays(change, ReviewRole::Foundation) || change_plays(change, ReviewRole::Code));
    assert(atom_plays(atom, ReviewRole::Tests) || atom_plays(atom, ReviewRole::Configuration)
        || atom_plays(atom, ReviewRole::Foundation) || atom_plays(atom, ReviewRole::Code));
    lemma_lies_in(path, directory(path));
    lemma_lies_in(path, x);
    lemma_lies_in(path, y);
}

/// The words that changes and atoms are grouped by are the same just if they play
/// the same role and, for code, lie in the same directory.
pub proof fn law_grouping_is_by_role_and_directory(
    change: EmbeddedChangeView,
    atom: AtomView,
    a: ReviewRole,
    b: ReviewRole,
    x: Seq<char>,
    y: Seq<char>,
)
    requires
        change_plays(change, a),
        lies_in(change.change.file_path, x),
        atom_plays(atom, b),
        lies_in(atom.file_path, y),
    ensures
        change_key(change) == atom_key(atom) <==> a == b && (a is Code ==> x == y),
        change_key(change) == role_word(a, x),
        atom_key(atom) == role_word(b, y),
{
    lemma_change_word(change, a, x);
    lemma_atom_word(atom, b, y);
    lemma_role_words(a, x, b, y);
}

/// A layer stands with the tests if its title speaks of them in any case, and
/// otherwise with configuration, foundations or code.
pub proof fn law_titles_tell_where_layers_stand(title: Seq<char>)
    ensures
        ({
            let small = in_small_letters(title);
            &&& title_order(title) >= 90 <==> stands_within("test"@, small)
            &&& title_order(title) == 0 <==> !stands_within("test"@, small) && stands_within(
                "config"@,
                small,
            )
            &&& title_order(title) == 10 <==> !stands_within("test"@, small) && !stands_within(
                "config"@,
                small,
            ) && stands_within("foundation"@, small)
        }),
{
    lemma_small(title);
    lemma_stands_within("test"@, lower(title));
    lemma_stands_within("config"@, lower(title));
    lemma_stands_within("foundation"@, lower(title));
}

} // verus!
