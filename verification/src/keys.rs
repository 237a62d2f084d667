//! Cache keys: texts that stand for everything a result was made from.

use vstd::prelude::*;

use crate::hash::{
    content_hash, content_hash_or_empty, digest, digest_or_empty, is_content_hash,
    stable_cache_key, stable_key,
};
use crate::json::{focus_target_text, json_focus_target};
use crate::model::{EntityView, FileStatus, SemanticEntity};
use crate::order::{lemma_sorted_texts_unique, sort_keyed, sorted_strings, sorted_texts};
use crate::seqs::{
    flattened, lemma_flattened_step, lemma_mapped_multiset, push_item, push_items, slice_of,
};
use crate::text::{
    bool_text, bool_word, copied_texts, decimal, decimal_text, join_texts, joined, option_text_or,
    text_or,
};
use crate::types::{
    AtomView, FileChangeView, FileInputView, FocusTargetView, HunkView, OptionsView,
    ScanOptionsView, SemEmbeddedOptions, SemEntityTarget, SemFileChange, SemFileInput,
    SemFocusTarget, SemHunk, SemImpactRequest, SemLayerGenerationOptions, SemLineRange,
    SemRepoScanOptions, SemReviewAtom, TargetView,
};

verus! {

// ---------------------------------------------------------------------------
// Pieces of keys

/// A text as Rust writes it for debugging, in quotes and with escapes.
pub uninterp spec fn debug_text(text: Seq<char>) -> Seq<char>;

/// `Debug` of a `str`, from the standard library, through `format!`. Claimed
/// of it: the result is a function of the text. Which characters it escapes,
/// and how, is left unsaid.
#[verifier::external_body]
fn debug_str(text: &str) -> (debug: String)
    ensures
        debug@ == debug_text(text@),
{
    format!("{:?}", text)
}

/// An optional text as Rust writes it for debugging.
pub open spec fn debug_option(value: Option<Seq<char>>) -> Seq<char> {
    match value {
        Some(text) => "Some("@ + debug_text(text) + ")"@,
        None => "None"@,
    }
}

fn debug_option_text(value: &Option<String>) -> (debug: String)
    ensures
        debug@ == debug_option(value.deep_view()),
{
    match value {
        Some(text) => {
            let mut debug = "Some(".to_string();
            debug.append(debug_str(text.as_str()).as_str());
            debug.append(")");
            debug
        },
        None => "None".to_string(),
    }
}

/// An optional line range as Rust writes it for debugging.
pub open spec fn debug_range(range: Option<SemLineRange>) -> Seq<char> {
    match range {
        Some(range) => "Some(SemLineRange { start_line: "@ + decimal(range.start_line as nat)
            + ", end_line: "@ + decimal(range.end_line as nat) + " })"@,
        None => "None"@,
    }
}

fn debug_range_text(range: Option<SemLineRange>) -> (debug: String)
    ensures
        debug@ == debug_range(range),
{
    match range {
        Some(range) => {
            let mut debug = "Some(SemLineRange { start_line: ".to_string();
            debug.append(decimal_text(range.start_line as u64).as_str());
            debug.append(", end_line: ");
            debug.append(decimal_text(range.end_line as u64).as_str());
            debug.append(" })");
            debug
        },
        None => "None".to_string(),
    }
}

pub open spec fn status_label(status: FileStatus) -> Seq<char> {
    match status {
        FileStatus::Added => "added"@,
        FileStatus::Modified => "modified"@,
        FileStatus::Deleted => "deleted"@,
        FileStatus::Renamed => "renamed"@,
    }
}

/// The word for what happened to a file.
pub fn file_status_label(status: &FileStatus) -> (label: &'static str)
    ensures
        label@ == status_label(*status),
{
    match status {
        FileStatus::Added => "added",
        FileStatus::Modified => "modified",
        FileStatus::Deleted => "deleted",
        FileStatus::Renamed => "renamed",
    }
}

/// What a key says of the options: which configuration files are loaded.
pub open spec fn options_part(options: OptionsView) -> Seq<char> {
    "opts:semrc="@ + bool_word(options.load_semrc) + ":gitattributes="@ + bool_word(
        options.load_gitattributes,
    )
}

/// What a key says of the options.
pub fn options_fingerprint(options: &SemEmbeddedOptions) -> (part: String)
    ensures
        part@ == options_part(options.deep_view()),
{
    let mut part = "opts:semrc=".to_string();
    part.append(bool_text(options.load_semrc));
    part.append(":gitattributes=");
    part.append(bool_text(options.load_gitattributes));
    part
}

fn single(part: String) -> (parts: Vec<String>)
    ensures
        parts.deep_view() == seq![part@],
{
    let mut parts: Vec<String> = Vec::new();
    parts.push(part);
    assert(parts.deep_view() =~= seq![part@]);
    parts
}

// ---------------------------------------------------------------------------
// Diffs and files

/// What a key says of a changed file: its paths, what happened to it, and the
/// hashes of its contents.
pub open spec fn change_part<H: Fn(&str) -> String>(hash: H, change: FileChangeView) -> Seq<char> {
    change.file_path + ":"@ + status_label(change.status) + ":"@ + text_or(
        change.old_file_path,
        ""@,
    ) + ":"@ + digest_or_empty(hash, change.before_content) + ":"@ + digest_or_empty(
        hash,
        change.after_content,
    )
}

fn change_part_text<H: Fn(&str) -> String>(hash: &H, change: &SemFileChange) -> (part: String)
    requires
        is_content_hash(*hash),
    ensures
        part@ == change_part(*hash, change.deep_view()),
{
    let mut part = change.file_path.clone();
    part.append(":");
    part.append(file_status_label(&change.status));
    part.append(":");
    part.append(option_text_or(&change.old_file_path, ""));
    part.append(":");
    part.append(content_hash_or_empty(hash, &change.before_content).as_str());
    part.append(":");
    part.append(content_hash_or_empty(hash, &change.after_content).as_str());
    part
}

/// What a key says of a hunk.
pub open spec fn hunk_part(hunk: HunkView) -> Seq<char> {
    "hunk:"@ + decimal(hunk.hunk_index as nat) + ":"@ + text_or(hunk.hunk_id, ""@) + ":"@
        + debug_option(hunk.hunk_header) + ":"@ + debug_range(hunk.old_range) + ":"@ + debug_range(
        hunk.new_range,
    )
}

fn hunk_part_text(hunk: &SemHunk) -> (part: String)
    ensures
        part@ == hunk_part(hunk.deep_view()),
{
    let mut part = "hunk:".to_string();
    part.append(decimal_text(hunk.hunk_index as u64).as_str());
    part.append(":");
    part.append(option_text_or(&hunk.hunk_id, ""));
    part.append(":");
    part.append(debug_option_text(&hunk.hunk_header).as_str());
    part.append(":");
    part.append(debug_range_text(hunk.old_range).as_str());
    part.append(":");
    part.append(debug_range_text(hunk.new_range).as_str());
    part
}

/// A changed file and its hunks, each in one part.
pub open spec fn change_parts<H: Fn(&str) -> String>(hash: H, change: FileChangeView) -> Seq<
    Seq<char>,
> {
    seq![change_part(hash, change)] + change.hunks.map_values(|hunk: HunkView| hunk_part(hunk))
}

fn push_change_parts<H: Fn(&str) -> String>(
    parts: &mut Vec<String>,
    hash: &H,
    change: &SemFileChange,
)
    requires
        is_content_hash(*hash),
    ensures
        final(parts).deep_view() == old(parts).deep_view() + change_parts(
            *hash,
            change.deep_view(),
        ),
{
    let ghost before = parts.deep_view();
    let ghost wanted = change_parts(*hash, change.deep_view());
    push_item(parts, change_part_text(hash, change));
    let mut i: usize = 0;
    assert(parts.deep_view() =~= before + wanted.take(1));
    while i < change.hunks.len()
        invariant
            i <= change.hunks@.len(),
            wanted == change_parts(*hash, change.deep_view()),
            parts.deep_view() == before + wanted.take(i + 1),
        decreases change.hunks@.len() - i,
    {
        push_item(parts, hunk_part_text(&change.hunks[i]));
        assert(wanted[i + 1] == hunk_part(change.deep_view().hunks[i as int]));
        assert(parts.deep_view() =~= before + wanted.take(i + 2));
        i = i + 1;
    }
    assert(wanted.take(i + 1) =~= wanted);
}

/// The parts of the key of a diff.
pub open spec fn diff_parts<H: Fn(&str) -> String>(
    hash: H,
    changes: Seq<FileChangeView>,
    options: OptionsView,
) -> Seq<Seq<char>> {
    seq![options_part(options)] + flattened(
        changes.map_values(|change: FileChangeView| change_parts(hash, change)),
    )
}

/// The key of a diff.
pub open spec fn diff_key<H: Fn(&str) -> String>(
    hash: H,
    changes: Seq<FileChangeView>,
    options: OptionsView,
) -> Seq<char> {
    stable_key(hash, "diff"@, diff_parts(hash, changes, options))
}

/// Makes the key of a diff.
pub fn diff_cache_key<H: Fn(&str) -> String>(
    changes: &[SemFileChange],
    options: &SemEmbeddedOptions,
    hash: &H,
) -> (key: String)
    requires
        is_content_hash(*hash),
    ensures
        key@ == diff_key(*hash, changes.deep_view(), options.deep_view()),
{
    let ghost all = changes.deep_view().map_values(
        |change: FileChangeView| change_parts(*hash, change),
    );
    let ghost first = seq![options_part(options.deep_view())];
    let mut parts = single(options_fingerprint(options));
    let mut i: usize = 0;
    assert(flattened(all.take(0)) =~= Seq::empty());
    assert(parts.deep_view() =~= first + flattened(all.take(0)));
    while i < changes.len()
        invariant
            is_content_hash(*hash),
            i <= changes@.len(),
            all == changes.deep_view().map_values(
                |change: FileChangeView| change_parts(*hash, change),
            ),
            parts.deep_view() == first + flattened(all.take(i as int)),
        decreases changes@.len() - i,
    {
        push_change_parts(&mut parts, hash, &changes[i]);
        proof {
            lemma_flattened_step(all, i as int);
            assert(all[i as int] == change_parts(*hash, changes.deep_view()[i as int]));
            assert(parts.deep_view() =~= first + flattened(all.take(i + 1)));
        }
        i = i + 1;
    }
    assert(all.take(i as int) =~= all);
    stable_cache_key(hash, "diff", slice_of(&parts))
}

/// What a key says of a file: its path and the hash of its content.
pub open spec fn file_part<H: Fn(&str) -> String>(hash: H, file: FileInputView) -> Seq<char> {
    file.file_path + ":"@ + digest(hash, file.content)
}

/// The parts of the key of a set of files.
pub open spec fn files_parts<H: Fn(&str) -> String>(
    hash: H,
    files: Seq<FileInputView>,
    options: OptionsView,
) -> Seq<Seq<char>> {
    seq![options_part(options)] + files.map_values(|file: FileInputView| file_part(hash, file))
}

fn files_parts_texts<H: Fn(&str) -> String>(
    hash: &H,
    files: &[SemFileInput],
    options: &SemEmbeddedOptions,
) -> (parts: Vec<String>)
    requires
        is_content_hash(*hash),
    ensures
        parts.deep_view() == files_parts(*hash, files.deep_view(), options.deep_view()),
{
    let ghost wanted = files_parts(*hash, files.deep_view(), options.deep_view());
    let mut parts = single(options_fingerprint(options));
    let mut i: usize = 0;
    assert(parts.deep_view() =~= wanted.take(1));
    while i < files.len()
        invariant
            is_content_hash(*hash),
            i <= files@.len(),
            wanted == files_parts(*hash, files.deep_view(), options.deep_view()),
            parts.deep_view() == wanted.take(i + 1),
        decreases files@.len() - i,
    {
        let mut part = files[i].file_path.clone();
        part.append(":");
        part.append(content_hash(hash, files[i].content.as_str()).as_str());
        push_item(&mut parts, part);
        assert(wanted[i + 1] == file_part(*hash, files.deep_view()[i as int]));
        assert(parts.deep_view() =~= wanted.take(i + 2));
        i = i + 1;
    }
    assert(wanted.take(i + 1) =~= wanted);
    parts
}

/// The key of an entity index.
pub open spec fn entity_index_key<H: Fn(&str) -> String>(
    hash: H,
    files: Seq<FileInputView>,
    options: OptionsView,
) -> Seq<char> {
    stable_key(hash, "entities"@, files_parts(hash, files, options))
}

/// Makes the key of an entity index.
pub fn entity_index_cache_key<H: Fn(&str) -> String>(
    files: &[SemFileInput],
    options: &SemEmbeddedOptions,
    hash: &H,
) -> (key: String)
    requires
        is_content_hash(*hash),
    ensures
        key@ == entity_index_key(*hash, files.deep_view(), options.deep_view()),
{
    let parts = files_parts_texts(hash, files, options);
    stable_cache_key(hash, "entities", slice_of(&parts))
}

/// The key of a graph of files in memory.
pub open spec fn memory_graph_key<H: Fn(&str) -> String>(
    hash: H,
    files: Seq<FileInputView>,
    options: OptionsView,
) -> Seq<char> {
    stable_key(hash, "memory-graph"@, files_parts(hash, files, options))
}

/// Makes the key of a graph of files in memory.
pub fn memory_graph_cache_key<H: Fn(&str) -> String>(
    files: &[SemFileInput],
    options: &SemEmbeddedOptions,
    hash: &H,
) -> (key: String)
    requires
        is_content_hash(*hash),
    ensures
        key@ == memory_graph_key(*hash, files.deep_view(), options.deep_view()),
{
    let parts = files_parts_texts(hash, files, options);
    stable_cache_key(hash, "memory-graph", slice_of(&parts))
}

// ---------------------------------------------------------------------------
// Repositories

/// What a key says of the bounds of a search.
pub open spec fn scan_part(options: ScanOptionsView) -> Seq<char> {
    "scan:"@ + decimal(options.max_files as nat) + ":"@ + decimal(options.max_file_bytes as nat)
        + ":"@ + decimal(options.max_depth as nat) + ":"@ + bool_word(options.include_hidden)
}

/// The key of the files that a search found.
pub open spec fn discovery_key<H: Fn(&str) -> String>(
    hash: H,
    root: Seq<char>,
    scan_options: ScanOptionsView,
    options: OptionsView,
    files: Seq<Seq<char>>,
) -> Seq<char> {
    stable_key(
        hash,
        "discover"@,
        seq![root, options_part(options), scan_part(scan_options)] + files,
    )
}

/// Makes the key of the files that a search found.
pub fn discovery_cache_key<H: Fn(&str) -> String>(
    root: &str,
    scan_options: &SemRepoScanOptions,
    options: &SemEmbeddedOptions,
    files: &[String],
    hash: &H,
) -> (key: String)
    requires
        is_content_hash(*hash),
    ensures
        key@ == discovery_key(
            *hash,
            root@,
            scan_options.deep_view(),
            options.deep_view(),
            files.deep_view(),
        ),
{
    let mut scan = "scan:".to_string();
    scan.append(decimal_text(scan_options.max_files as u64).as_str());
    scan.append(":");
    scan.append(decimal_text(scan_options.max_file_bytes).as_str());
    scan.append(":");
    scan.append(decimal_text(scan_options.max_depth as u64).as_str());
    scan.append(":");
    scan.append(bool_text(scan_options.include_hidden));
    let ghost scan_view = scan@;
    let mut parts = single(root.to_string());
    push_item(&mut parts, options_fingerprint(options));
    push_item(&mut parts, scan);
    push_items(&mut parts, copied_texts(files));
    assert(parts.deep_view() =~= seq![root@, options_part(options.deep_view()), scan_view]
        + files.deep_view());
    stable_cache_key(hash, "discover", slice_of(&parts))
}

/// What a key says of a path.
pub open spec fn path_part(path: Seq<char>) -> Seq<char> {
    "path:"@ + path
}

/// What a key says of an entity: its id and the hash of its content.
pub open spec fn entity_part(entity: EntityView) -> Seq<char> {
    entity.id + ":"@ + entity.content_hash
}

/// The key of a graph of the files of a repository.
pub open spec fn repo_graph_key<H: Fn(&str) -> String>(
    hash: H,
    root: Seq<char>,
    file_paths: Seq<Seq<char>>,
    options: OptionsView,
    entities: Seq<EntityView>,
) -> Seq<char> {
    stable_key(
        hash,
        "repo-graph"@,
        seq![root, options_part(options)] + sorted_texts(file_paths).map_values(
            |path: Seq<char>| path_part(path),
        ) + sorted_texts(entities.map_values(|entity: EntityView| entity_part(entity))),
    )
}

fn path_parts_texts(paths: &[String]) -> (parts: Vec<String>)
    ensures
        parts.deep_view() == paths.deep_view().map_values(|path: Seq<char>| path_part(path)),
{
    let ghost wanted = paths.deep_view().map_values(|path: Seq<char>| path_part(path));
    let mut parts: Vec<String> = Vec::new();
    let mut i: usize = 0;
    assert(parts.deep_view() =~= wanted.take(0));
    while i < paths.len()
        invariant
            i <= paths@.len(),
            wanted == paths.deep_view().map_values(|path: Seq<char>| path_part(path)),
            parts.deep_view() == wanted.take(i as int),
        decreases paths@.len() - i,
    {
        let mut part = "path:".to_string();
        part.append(paths[i].as_str());
        push_item(&mut parts, part);
        assert(wanted[i as int] == path_part(paths.deep_view()[i as int]));
        assert(parts.deep_view() =~= wanted.take(i + 1));
        i = i + 1;
    }
    assert(wanted.take(i as int) =~= wanted);
    parts
}

fn entity_parts_texts(entities: &[SemanticEntity]) -> (parts: Vec<String>)
    ensures
        parts.deep_view() == entities.deep_view().map_values(
            |entity: EntityView| entity_part(entity),
        ),
{
    let ghost wanted = entities.deep_view().map_values(|entity: EntityView| entity_part(entity));
    let mut parts: Vec<String> = Vec::new();
    let mut i: usize = 0;
    assert(parts.deep_view() =~= wanted.take(0));
    while i < entities.len()
        invariant
            i <= entities@.len(),
            wanted == entities.deep_view().map_values(|entity: EntityView| entity_part(entity)),
            parts.deep_view() == wanted.take(i as int),
        decreases entities@.len() - i,
    {
        let mut part = entities[i].id.clone();
        part.append(":");
        part.append(entities[i].content_hash.as_str());
        push_item(&mut parts, part);
        assert(wanted[i as int] == entity_part(entities.deep_view()[i as int]));
        assert(parts.deep_view() =~= wanted.take(i + 1));
        i = i + 1;
    }
    assert(wanted.take(i as int) =~= wanted);
    parts
}

/// Makes the key of a graph of the files of a repository.
pub fn repo_graph_cache_key<H: Fn(&str) -> String>(
    root: &str,
    file_paths: &[String],
    options: &SemEmbeddedOptions,
    entities: &[SemanticEntity],
    hash: &H,
) -> (key: String)
    requires
        is_content_hash(*hash),
    ensures
        key@ == repo_graph_key(
            *hash,
            root@,
            file_paths.deep_view(),
            options.deep_view(),
            entities.deep_view(),
        ),
{
    let mut parts = single(root.to_string());
    push_item(&mut parts, options_fingerprint(options));
    let sorted = sorted_strings(file_paths);
    push_items(&mut parts, path_parts_texts(slice_of(&sorted)));
    push_items(&mut parts, sort_keyed(entity_parts_texts(entities)));
    assert(parts.deep_view() =~= seq![root@, options_part(options.deep_view())] + sorted_texts(
        file_paths.deep_view(),
    ).map_values(|path: Seq<char>| path_part(path)) + sorted_texts(
        entities.deep_view().map_values(|entity: EntityView| entity_part(entity)),
    ));
    stable_cache_key(hash, "repo-graph", slice_of(&parts))
}

// ---------------------------------------------------------------------------
// Focus and impact

/// The key of a resolved focus target.
pub open spec fn focus_key<H: Fn(&str) -> String>(
    hash: H,
    changes: Seq<FileChangeView>,
    target: FocusTargetView,
    options: OptionsView,
) -> Seq<char> {
    stable_key(
        hash,
        "focus"@,
        seq![diff_key(hash, changes, options), json_focus_target(target)],
    )
}

/// Makes the key of a resolved focus target.
pub fn focus_cache_key<H: Fn(&str) -> String>(
    changes: &[SemFileChange],
    target: &SemFocusTarget,
    options: &SemEmbeddedOptions,
    hash: &H,
) -> (key: String)
    requires
        is_content_hash(*hash),
    ensures
        key@ == focus_key(*hash, changes.deep_view(), target.deep_view(), options.deep_view()),
{
    let mut parts = single(diff_cache_key(changes, options, hash));
    push_item(&mut parts, focus_target_text(target));
    assert(parts.deep_view() =~= seq![
        diff_key(*hash, changes.deep_view(), options.deep_view()),
        json_focus_target(target.deep_view()),
    ]);
    stable_cache_key(hash, "focus", slice_of(&parts))
}

/// What a key says of the bounds of an impact context.
pub open spec fn request_part(request: SemImpactRequest) -> Seq<char> {
    "request:"@ + decimal(request.token_budget as nat) + ":"@ + decimal(request.max_depth as nat)
}

/// The key of the impact of a diff.
pub open spec fn diff_impact_key<H: Fn(&str) -> String>(
    hash: H,
    file_paths: Seq<Seq<char>>,
    changes: Seq<FileChangeView>,
    target: FocusTargetView,
    request: SemImpactRequest,
    options: OptionsView,
    graph_key: Seq<char>,
) -> Seq<char> {
    stable_key(
        hash,
        "diff-impact"@,
        seq![
            graph_key,
            diff_key(hash, changes, options),
            json_focus_target(target),
            request_part(request),
            joined(sorted_texts(file_paths), "\n"@),
        ],
    )
}

/// Makes the key of the impact of a diff.
pub fn diff_impact_cache_key<H: Fn(&str) -> String>(
    file_paths: &[String],
    changes: &[SemFileChange],
    target: &SemFocusTarget,
    request: &SemImpactRequest,
    options: &SemEmbeddedOptions,
    graph_cache_key: &str,
    hash: &H,
) -> (key: String)
    requires
        is_content_hash(*hash),
    ensures
        key@ == diff_impact_key(
            *hash,
            file_paths.deep_view(),
            changes.deep_view(),
            target.deep_view(),
            *request,
            options.deep_view(),
            graph_cache_key@,
        ),
{
    let mut parts = single(graph_cache_key.to_string());
    push_item(&mut parts, diff_cache_key(changes, options, hash));
    push_item(&mut parts, focus_target_text(target));
    let mut bounds = "request:".to_string();
    bounds.append(decimal_text(request.token_budget as u64).as_str());
    bounds.append(":");
    bounds.append(decimal_text(request.max_depth as u64).as_str());
    push_item(&mut parts, bounds);
    let sorted = sorted_strings(file_paths);
    push_item(&mut parts, join_texts(slice_of(&sorted), "\n"));
    assert(parts.deep_view() =~= seq![
        graph_cache_key@,
        diff_key(*hash, changes.deep_view(), options.deep_view()),
        json_focus_target(target.deep_view()),
        request_part(*request),
        joined(sorted_texts(file_paths.deep_view()), "\n"@),
    ]);
    stable_cache_key(hash, "diff-impact", slice_of(&parts))
}

/// What a key says of a request for an impact context.
pub open spec fn impact_request_part(
    file_paths: Seq<Seq<char>>,
    target: TargetView,
    request: SemImpactRequest,
) -> Seq<char> {
    "files:"@ + joined(sorted_texts(file_paths), ","@) + ":target:"@ + text_or(
        target.entity_id,
        ""@,
    ) + ":"@ + text_or(target.entity_name, ""@) + ":"@ + text_or(target.file_path, ""@)
        + ":request:"@ + decimal(request.token_budget as nat) + ":"@ + decimal(
        request.max_depth as nat,
    )
}

/// What a key says of a request for an impact context.
pub fn impact_request_fingerprint(
    file_paths: &[String],
    target: &SemEntityTarget,
    request: &SemImpactRequest,
) -> (part: String)
    ensures
        part@ == impact_request_part(file_paths.deep_view(), target.deep_view(), *request),
{
    let sorted = sorted_strings(file_paths);
    let mut part = "files:".to_string();
    part.append(join_texts(slice_of(&sorted), ",").as_str());
    part.append(":target:");
    part.append(option_text_or(&target.entity_id, ""));
    part.append(":");
    part.append(option_text_or(&target.entity_name, ""));
    part.append(":");
    part.append(option_text_or(&target.file_path, ""));
    part.append(":request:");
    part.append(decimal_text(request.token_budget as u64).as_str());
    part.append(":");
    part.append(decimal_text(request.max_depth as u64).as_str());
    part
}

/// The key of an impact context.
pub open spec fn impact_key<H: Fn(&str) -> String>(
    hash: H,
    graph_key: Seq<char>,
    file_paths: Seq<Seq<char>>,
    target: TargetView,
    request: SemImpactRequest,
) -> Seq<char> {
    stable_key(
        hash,
        "impact"@,
        seq![graph_key, impact_request_part(file_paths, target, request)],
    )
}

/// Makes the key of an impact context.
pub fn impact_cache_key<H: Fn(&str) -> String>(
    graph_cache_key: &str,
    file_paths: &[String],
    target: &SemEntityTarget,
    request: &SemImpactRequest,
    hash: &H,
) -> (key: String)
    requires
        is_content_hash(*hash),
    ensures
        key@ == impact_key(
            *hash,
            graph_cache_key@,
            file_paths.deep_view(),
            target.deep_view(),
            *request,
        ),
{
    let mut parts = single(graph_cache_key.to_string());
    push_item(&mut parts, impact_request_fingerprint(file_paths, target, request));
    assert(parts.deep_view() =~= seq![
        graph_cache_key@,
        impact_request_part(file_paths.deep_view(), target.deep_view(), *request),
    ]);
    stable_cache_key(hash, "impact", slice_of(&parts))
}

// ---------------------------------------------------------------------------
// Review plans

/// What a key says of the bounds of a review plan.
pub open spec fn layer_options_part(options: SemLayerGenerationOptions) -> Seq<char> {
    decimal(options.max_layers as nat) + ":"@ + decimal(options.max_changes_per_layer as nat)
}

fn layer_options_text(options: &SemLayerGenerationOptions) -> (part: String)
    ensures
        part@ == layer_options_part(*options),
{
    let mut part = decimal_text(options.max_layers as u64);
    part.append(":");
    part.append(decimal_text(options.max_changes_per_layer as u64).as_str());
    part
}

/// The key of a review plan.
pub open spec fn review_layer_key<H: Fn(&str) -> String>(
    hash: H,
    analysis_key: Seq<char>,
    layer_options: SemLayerGenerationOptions,
    options: OptionsView,
) -> Seq<char> {
    stable_key(
        hash,
        "review-layers"@,
        seq![analysis_key, options_part(options), layer_options_part(layer_options)],
    )
}

/// Makes the key of a review plan from the key of the analysis it was made
/// from.
pub fn review_layer_cache_key<H: Fn(&str) -> String>(
    analysis_cache_key: &str,
    layer_options: &SemLayerGenerationOptions,
    options: &SemEmbeddedOptions,
    hash: &H,
) -> (key: String)
    requires
        is_content_hash(*hash),
    ensures
        key@ == review_layer_key(
            *hash,
            analysis_cache_key@,
            *layer_options,
            options.deep_view(),
        ),
{
    let mut parts = single(analysis_cache_key.to_string());
    push_item(&mut parts, options_fingerprint(options));
    push_item(&mut parts, layer_options_text(layer_options));
    assert(parts.deep_view() =~= seq![
        analysis_cache_key@,
        options_part(options.deep_view()),
        layer_options_part(*layer_options),
    ]);
    stable_cache_key(hash, "review-layers", slice_of(&parts))
}

/// Numbers in decimal digits.
pub open spec fn decimals(numbers: Seq<usize>) -> Seq<Seq<char>> {
    numbers.map_values(|n: usize| decimal(n as nat))
}

fn decimal_texts(numbers: &[usize]) -> (texts: Vec<String>)
    ensures
        texts.deep_view() == decimals(numbers@),
{
    let mut texts: Vec<String> = Vec::new();
    let mut i: usize = 0;
    assert(texts.deep_view() =~= decimals(numbers@).take(0));
    while i < numbers.len()
        invariant
            i <= numbers@.len(),
            texts.deep_view() == decimals(numbers@).take(i as int),
        decreases numbers@.len() - i,
    {
        push_item(&mut texts, decimal_text(numbers[i] as u64));
        assert(texts.deep_view() =~= decimals(numbers@).take(i + 1));
        i = i + 1;
    }
    assert(decimals(numbers@).take(i as int) =~= decimals(numbers@));
    texts
}

/// What a key says of an atom.
pub open spec fn atom_part(atom: AtomView) -> Seq<char> {
    atom.atom_id + ":"@ + atom.file_path + ":"@ + text_or(atom.old_file_path, ""@) + ":"@ + text_or(
        atom.role,
        ""@,
    ) + ":"@ + debug_range(atom.old_range) + ":"@ + debug_range(atom.new_range) + ":"@ + joined(
        sorted_texts(atom.defined_symbols),
        ","@,
    ) + ":"@ + joined(sorted_texts(atom.referenced_symbols), ","@) + ":"@ + joined(
        decimals(atom.hunk_indices),
        ","@,
    ) + ":"@ + decimal(atom.changed_lines as nat) + ":"@ + bool_word(atom.manual_review)
}

fn atom_part_text(atom: &SemReviewAtom) -> (part: String)
    ensures
        part@ == atom_part(atom.deep_view()),
{
    let defined = sorted_strings(slice_of(&atom.defined_symbols));
    let referenced = sorted_strings(slice_of(&atom.referenced_symbols));
    let hunks = decimal_texts(atom.hunk_indices.as_slice());
    assert(atom.hunk_indices@ =~= atom.hunk_indices.deep_view());
    let mut part = atom.atom_id.clone();
    part.append(":");
    part.append(atom.file_path.as_str());
    part.append(":");
    part.append(option_text_or(&atom.old_file_path, ""));
    part.append(":");
    part.append(option_text_or(&atom.role, ""));
    part.append(":");
    part.append(debug_range_text(atom.old_range).as_str());
    part.append(":");
    part.append(debug_range_text(atom.new_range).as_str());
    part.append(":");
    part.append(join_texts(slice_of(&defined), ",").as_str());
    part.append(":");
    part.append(join_texts(slice_of(&referenced), ",").as_str());
    part.append(":");
    part.append(join_texts(slice_of(&hunks), ",").as_str());
    part.append(":");
    part.append(decimal_text(atom.changed_lines as u64).as_str());
    part.append(":");
    part.append(bool_text(atom.manual_review));
    part
}

/// The key of a review plan with atoms.
pub open spec fn review_atom_layer_key<H: Fn(&str) -> String>(
    hash: H,
    analysis_key: Seq<char>,
    atoms: Seq<AtomView>,
    layer_options: SemLayerGenerationOptions,
    options: OptionsView,
) -> Seq<char> {
    stable_key(
        hash,
        "review-atom-layers"@,
        seq![
            review_layer_key(hash, analysis_key, layer_options, options),
            options_part(options),
            layer_options_part(layer_options),
        ] + atoms.map_values(|atom: AtomView| atom_part(atom)),
    )
}

/// Makes the key of a review plan with atoms.
pub fn review_atom_layer_cache_key<H: Fn(&str) -> String>(
    analysis_cache_key: &str,
    atoms: &[SemReviewAtom],
    layer_options: &SemLayerGenerationOptions,
    options: &SemEmbeddedOptions,
    hash: &H,
) -> (key: String)
    requires
        is_content_hash(*hash),
    ensures
        key@ == review_atom_layer_key(
            *hash,
            analysis_cache_key@,
            atoms.deep_view(),
            *layer_options,
            options.deep_view(),
        ),
{
    let ghost first = seq![
        review_layer_key(*hash, analysis_cache_key@, *layer_options, options.deep_view()),
        options_part(options.deep_view()),
        layer_options_part(*layer_options),
    ];
    let ghost wanted = atoms.deep_view().map_values(|atom: AtomView| atom_part(atom));
    let mut parts = single(
        review_layer_cache_key(analysis_cache_key, layer_options, options, hash),
    );
    push_item(&mut parts, options_fingerprint(options));
    push_item(&mut parts, layer_options_text(layer_options));
    let mut i: usize = 0;
    assert(parts.deep_view() =~= first + wanted.take(0));
    while i < atoms.len()
        invariant
            i <= atoms@.len(),
            wanted == atoms.deep_view().map_values(|atom: AtomView| atom_part(atom)),
            parts.deep_view() == first + wanted.take(i as int),
        decreases atoms@.len() - i,
    {
        push_item(&mut parts, atom_part_text(&atoms[i]));
        assert(wanted[i as int] == atom_part(atoms.deep_view()[i as int]));
        assert(parts.deep_view() =~= first + wanted.take(i + 1));
        i = i + 1;
    }
    assert(wanted.take(i as int) =~= wanted);
    stable_cache_key(hash, "review-atom-layers", slice_of(&parts))
}

// ---------------------------------------------------------------------------
// Laws

/// The order in which files are named and entities were found does not matter
/// to the key of a graph.
pub proof fn law_graph_key_ignores_order<H: Fn(&str) -> String>(
    hash: H,
    root: Seq<char>,
    paths_a: Seq<Seq<char>>,
    paths_b: Seq<Seq<char>>,
    options: OptionsView,
    entities_a: Seq<EntityView>,
    entities_b: Seq<EntityView>,
)
    requires
        paths_a.to_multiset() == paths_b.to_multiset(),
        entities_a.to_multiset() == entities_b.to_multiset(),
    ensures
        repo_graph_key(hash, root, paths_a, options, entities_a) == repo_graph_key(
            hash,
            root,
            paths_b,
            options,
            entities_b,
        ),
{
    lemma_sorted_texts_unique(paths_a, paths_b);
    let f = |entity: EntityView| entity_part(entity);
    lemma_mapped_multiset(entities_a, entities_b, f);
    lemma_sorted_texts_unique(entities_a.map_values(f), entities_b.map_values(f));
}

/// The order in which files are named does not matter to the key of an impact
/// context.
pub proof fn law_impact_key_ignores_order<H: Fn(&str) -> String>(
    hash: H,
    graph_key: Seq<char>,
    paths_a: Seq<Seq<char>>,
    paths_b: Seq<Seq<char>>,
    target: TargetView,
    request: SemImpactRequest,
)
    requires
        paths_a.to_multiset() == paths_b.to_multiset(),
    ensures
        impact_key(hash, graph_key, paths_a, target, request) == impact_key(
            hash,
            graph_key,
            paths_b,
            target,
            request,
        ),
{
    lemma_sorted_texts_unique(paths_a, paths_b);
}

/// The order in which files are named does not matter to the key of the impact
/// of a diff.
pub proof fn law_diff_impact_key_ignores_order<H: Fn(&str) -> String>(
    hash: H,
    paths_a: Seq<Seq<char>>,
    paths_b: Seq<Seq<char>>,
    changes: Seq<FileChangeView>,
    target: FocusTargetView,
    request: SemImpactRequest,
    options: OptionsView,
    graph_key: Seq<char>,
)
    requires
        paths_a.to_multiset() == paths_b.to_multiset(),
    ensures
        diff_impact_key(hash, paths_a, changes, target, request, options, graph_key)
            == diff_impact_key(hash, paths_b, changes, target, request, options, graph_key),
{
    lemma_sorted_texts_unique(paths_a, paths_b);
}

} // verus!
