//! What role a change plays in a review, and what its layer is called.

use vstd::prelude::*;

use crate::collections::{listed, StringSet};
use crate::search::{
    directory, directory_of, ends_with, has_part, lower, lower_text, same_ignoring_case,
    text_ends_with, text_has_part,
};
use crate::text::same_text;
use crate::types::{AtomView, EmbeddedChangeView, SemEmbeddedChange, SemReviewAtom};

verus! {

// ---------------------------------------------------------------------------
// Paths and roles

/// Whether a path is that of a test, whatever the case of its letters.
pub open spec fn test_path(path: Seq<char>) -> bool {
    let path = lower(path);
    ||| has_part(path, "/test/"@)
    ||| has_part(path, "/tests/"@)
    ||| has_part(path, ".test."@)
    ||| has_part(path, ".spec."@)
    ||| ends_with(path, "_test.rs"@)
}

/// Whether a path is that of a test.
pub fn path_is_test(path: &str) -> (yes: bool)
    ensures
        yes == test_path(path@),
{
    let lowered = lower_text(path);
    let path = lowered.as_str();
    text_has_part(path, "/test/") || text_has_part(path, "/tests/") || text_has_part(path, ".test.")
        || text_has_part(path, ".spec.") || text_ends_with(path, "_test.rs")
}

/// Whether a path is that of a configuration file, whatever the case of its
/// letters.
pub open spec fn config_path(path: Seq<char>) -> bool {
    let path = lower(path);
    ||| ends_with(path, ".toml"@)
    ||| ends_with(path, ".yaml"@)
    ||| ends_with(path, ".yml"@)
    ||| ends_with(path, ".json"@)
    ||| ends_with(path, ".lock"@)
}

/// Whether a path is that of a configuration file.
pub fn path_is_config(path: &str) -> (yes: bool)
    ensures
        yes == config_path(path@),
{
    let lowered = lower_text(path);
    let path = lowered.as_str();
    text_ends_with(path, ".toml") || text_ends_with(path, ".yaml") || text_ends_with(path, ".yml")
        || text_ends_with(path, ".json") || text_ends_with(path, ".lock")
}

/// Whether a role is that of tests.
pub open spec fn test_role(role: Seq<char>) -> bool {
    lower(role) == lower("tests"@) || lower(role) == lower("test"@)
}

/// Whether a role is that of tests.
pub fn is_test_role(role: &str) -> (yes: bool)
    ensures
        yes == test_role(role@),
{
    same_ignoring_case(role, "tests") || same_ignoring_case(role, "test")
}

/// Whether a role is that of configuration.
pub open spec fn config_role(role: Seq<char>) -> bool {
    lower(role) == lower("config"@)
}

/// Whether a role is that of configuration.
pub fn is_config_role(role: &str) -> (yes: bool)
    ensures
        yes == config_role(role@),
{
    same_ignoring_case(role, "config")
}

/// Whether a role is that of what other code stands on.
pub open spec fn foundation_role(role: Seq<char>) -> bool {
    let role = lower(role);
    role == "foundation"@ || role == "model"@ || role == "schema"@ || role == "type"@
}

/// Whether a role is that of what other code stands on.
pub fn is_foundation_role(role: &str) -> (yes: bool)
    ensures
        yes == foundation_role(role@),
{
    let lowered = lower_text(role);
    let role = lowered.as_str();
    same_text(role, "foundation") || same_text(role, "model") || same_text(role, "schema")
        || same_text(role, "type")
}

/// Whether a type of entity is one that other code stands on.
pub open spec fn foundation_type(entity_type: Seq<char>) -> bool {
    ||| entity_type == "struct"@
    ||| entity_type == "class"@
    ||| entity_type == "interface"@
    ||| entity_type == "trait"@
    ||| entity_type == "type"@
    ||| entity_type == "enum"@
}

fn is_foundation_type(entity_type: &str) -> (yes: bool)
    ensures
        yes == foundation_type(entity_type@),
{
    same_text(entity_type, "struct") || same_text(entity_type, "class") || same_text(
        entity_type,
        "interface",
    ) || same_text(entity_type, "trait") || same_text(entity_type, "type") || same_text(
        entity_type,
        "enum",
    )
}

// ---------------------------------------------------------------------------
// Keys of layers

/// The key of code that plays no other role: its directory.
pub open spec fn code_key(path: Seq<char>) -> Seq<char> {
    "code:"@ + directory(path)
}

fn code_key_text(path: &str) -> (key: String)
    ensures
        key@ == code_key(path@),
{
    let mut key = "code:".to_string();
    key.append(directory_of(path).as_str());
    key
}

/// The key of the layers that a change belongs to.
pub open spec fn change_key(change: EmbeddedChangeView) -> Seq<char> {
    if test_path(change.change.file_path) {
        "tests"@
    } else if config_path(change.change.file_path) {
        "config"@
    } else if foundation_type(change.change.entity_type) {
        "foundation"@
    } else {
        code_key(change.change.file_path)
    }
}

/// The key of the layers that a change belongs to.
pub fn layer_key_for_change(change: &SemEmbeddedChange) -> (key: String)
    ensures
        key@ == change_key(change.deep_view()),
{
    let path = change.change.file_path.as_str();
    if path_is_test(path) {
        "tests".to_string()
    } else if path_is_config(path) {
        "config".to_string()
    } else if is_foundation_type(change.change.entity_type.as_str()) {
        "foundation".to_string()
    } else {
        code_key_text(path)
    }
}

/// The key of the layers that an atom belongs to: by the role that the host
/// gave it, or else by its path.
pub open spec fn atom_key(atom: AtomView) -> Seq<char> {
    if (atom.role matches Some(role) && test_role(role)) || test_path(atom.file_path) {
        "tests"@
    } else if (atom.role matches Some(role) && config_role(role)) || config_path(atom.file_path) {
        "config"@
    } else if atom.role matches Some(role) && foundation_role(role) {
        "foundation"@
    } else {
        code_key(atom.file_path)
    }
}

/// Whether the host gave an atom the role of a test.
pub open spec fn is_test_atom(atom: AtomView) -> bool {
    atom.role matches Some(role) && test_role(role)
}

pub fn has_test_role(atom: &SemReviewAtom) -> (yes: bool)
    ensures
        yes == is_test_atom(atom.deep_view()),
{
    match &atom.role {
        Some(role) => is_test_role(role.as_str()),
        None => false,
    }
}

/// The key of the layers that an atom belongs to.
pub fn atom_layer_key(atom: &SemReviewAtom) -> (key: String)
    ensures
        key@ == atom_key(atom.deep_view()),
{
    let path = atom.file_path.as_str();
    let (config, foundation): (bool, bool) = match &atom.role {
        Some(role) => (is_config_role(role.as_str()), is_foundation_role(role.as_str())),
        None => (false, false),
    };
    if has_test_role(atom) || path_is_test(path) {
        "tests".to_string()
    } else if config || path_is_config(path) {
        "config".to_string()
    } else if foundation {
        "foundation".to_string()
    } else {
        code_key_text(path)
    }
}

// ---------------------------------------------------------------------------
// The order of layers

/// Where the layers of a key stand: configuration first, then foundations,
/// then code, then tests.
pub open spec fn key_order(key: Seq<char>) -> usize {
    if key == "config"@ {
        0
    } else if key == "foundation"@ {
        10
    } else if key == "tests"@ {
        90
    } else {
        40
    }
}

/// Where the layers of a key stand.
pub fn layer_order(key: &str) -> (order: usize)
    ensures
        order == key_order(key@),
{
    if same_text(key, "config") {
        0
    } else if same_text(key, "foundation") {
        10
    } else if same_text(key, "tests") {
        90
    } else {
        40
    }
}

/// Where a layer stands by its title, whatever the case of its letters.
pub open spec fn title_order(title: Seq<char>) -> usize {
    if has_part(lower(title), "test"@) {
        90
    } else if has_part(lower(title), "config"@) {
        0
    } else if has_part(lower(title), "foundation"@) {
        10
    } else {
        40
    }
}

/// Where a layer stands by its title.
pub fn layer_order_key(title: &str) -> (order: usize)
    ensures
        order == title_order(title@),
{
    let lowered = lower_text(title);
    let lower = lowered.as_str();
    if text_has_part(lower, "test") {
        90
    } else if text_has_part(lower, "config") {
        0
    } else if text_has_part(lower, "foundation") {
        10
    } else {
        40
    }
}

// ---------------------------------------------------------------------------
// Titles

/// The title of a layer: that of its role or, for code, the one entity or the
/// one file that it is about.
pub open spec fn title_of(
    key: Seq<char>,
    entity_names: Set<Seq<char>>,
    file_paths: Set<Seq<char>>,
) -> Seq<char> {
    if key == "config"@ {
        "Update configuration"@
    } else if key == "foundation"@ {
        "Update foundation types"@
    } else if key == "tests"@ {
        "Update tests"@
    } else if entity_names.len() == 1 {
        "Update "@ + listed(entity_names)[0]
    } else if file_paths.len() == 1 {
        "Update "@ + listed(file_paths)[0]
    } else {
        "Update related code"@
    }
}

fn update_text(what: &str) -> (title: String)
    ensures
        title@ == "Update "@ + what@,
{
    let mut title = "Update ".to_string();
    title.append(what);
    title
}

/// The title of a layer.
pub fn layer_title(key: &str, entity_names: &StringSet, file_paths: &StringSet) -> (title: String)
    requires
        entity_names.wf(),
        file_paths.wf(),
    ensures
        title@ == title_of(key@, entity_names@, file_paths@),
{
    if same_text(key, "config") {
        "Update configuration".to_string()
    } else if same_text(key, "foundation") {
        "Update foundation types".to_string()
    } else if same_text(key, "tests") {
        "Update tests".to_string()
    } else if entity_names.len() == 1 {
        update_text(entity_names.first())
    } else if file_paths.len() == 1 {
        update_text(file_paths.first())
    } else {
        "Update related code".to_string()
    }
}

/// The title of a layer of atoms.
pub fn atom_layer_title(key: &str, entity_names: &StringSet, file_paths: &StringSet) -> (title:
    String)
    requires
        entity_names.wf(),
        file_paths.wf(),
    ensures
        title@ == title_of(key@, entity_names@, file_paths@),
{
    layer_title(key, entity_names, file_paths)
}

} // verus!
