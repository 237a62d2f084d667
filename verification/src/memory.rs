//! Graphs of files that are held in memory.

use vstd::prelude::*;

use crate::execution::{
    cancelled, ensure_not_cancelled, failure, is_cancelled, is_reported, may_be_told,
    progress_event, report_progress, unless_cancelled, SemExecutionContext,
};
use crate::graph::{build_repo_graph_with_execution, graph_is_reported};
use crate::hash::is_content_hash;
use crate::keys::{memory_graph_cache_key, memory_graph_key};
use crate::model::{EntityGraph, EntityView, GraphView, SemanticEntity};
use crate::order::sorted_texts;
use crate::search::{has_parent_segment, has_piece, separates, Separator};
use crate::seqs::{
    first_where, lemma_first_where_at, lemma_first_where_found, lemma_first_where_none, push_item,
    slice_of,
};
use crate::text::{chars_of, decimal, decimal_text};
use crate::types::{
    ErrorView, FileInputView, OptionsView, ProgressView, SemEmbeddedOptions, SemErrorKind,
    SemFileInput, SemGraphSnapshot, SemProgressEvent, SemResult, SnapshotView,
    SEM_EMBEDDED_API_VERSION,
};

verus! {

// ---------------------------------------------------------------------------
// Paths

/// How the platform of the host reads paths.
#[derive(Debug, Clone, Copy, PartialEq, Eq, Structural)]
pub enum PathStyle {
    /// Slashes separate segments.
    Unix,
    /// Slashes and backslashes separate segments, and a path can begin with a
    /// drive.
    Windows,
}

/// What separates the segments of a path.
pub open spec fn segment_separator(style: PathStyle) -> Separator {
    match style {
        PathStyle::Unix => Separator::Slash,
        PathStyle::Windows => Separator::EitherSlash,
    }
}

/// Whether a path begins with a drive: a letter and a colon.
pub open spec fn begins_with_drive(path: Seq<char>) -> bool {
    path.len() > 1 && ('a' <= path[0] <= 'z' || 'A' <= path[0] <= 'Z') && path[1] == ':'
}

/// Whether a path leaves the directory that it is taken from: it begins at a
/// root or with a drive, or leads upwards somewhere.
pub open spec fn leaves_directory(path: Seq<char>, style: PathStyle) -> bool {
    ||| path.len() > 0 && separates(segment_separator(style), path[0])
    ||| style == PathStyle::Windows && begins_with_drive(path)
    ||| has_piece(path, segment_separator(style), ".."@)
}

/// Whether the path of a file leaves the directory that it is taken from.
pub open spec fn is_misplaced(style: PathStyle) -> spec_fn(FileInputView) -> bool {
    |file: FileInputView| leaves_directory(file.file_path, style)
}

/// The error of a path that leaves the directory of the graph.
pub open spec fn misplaced(path: Seq<char>) -> ErrorView {
    ErrorView {
        kind: SemErrorKind::InvalidInput,
        message: "memory graph file path must be relative: "@ + path,
    }
}

fn path_leaves_directory(path: &str, style: PathStyle) -> (leaves: bool)
    ensures
        leaves == leaves_directory(path@, style),
{
    let chars = chars_of(path);
    match style {
        PathStyle::Unix => (chars.len() > 0 && chars[0] == '/') || has_parent_segment(
            path,
            Separator::Slash,
        ),
        PathStyle::Windows => {
            let from_root = chars.len() > 0 && (chars[0] == '/' || chars[0] == '\\');
            let from_drive = chars.len() > 1 && ('a' <= chars[0] && chars[0] <= 'z' || 'A'
                <= chars[0] && chars[0] <= 'Z') && chars[1] == ':';
            from_root || from_drive || has_parent_segment(path, Separator::EitherSlash)
        },
    }
}

/// Fails on the first file whose path leaves the directory of the graph.
pub fn validate_memory_files(files: &[SemFileInput], style: PathStyle) -> (outcome: SemResult<()>)
    ensures
        match (outcome, first_where(files.deep_view(), is_misplaced(style))) {
            (Ok(()), None) => true,
            (Err(error), Some(file)) => error.deep_view() == misplaced(file.file_path),
            _ => false,
        },
{
    let ghost all = files.deep_view();
    let mut i: usize = 0;
    while i < files.len()
        invariant
            i <= files@.len(),
            all == files.deep_view(),
            forall|j: int| 0 <= j < i ==> !is_misplaced(style)(#[trigger] all[j]),
        decreases files@.len() - i,
    {
        let file = &files[i];
        assert(all[i as int] == file.deep_view());
        if path_leaves_directory(file.file_path.as_str(), style) {
            proof {
                lemma_first_where_at(all, is_misplaced(style), i as int);
            }
            let mut message = "memory graph file path must be relative: ".to_string();
            message.append(file.file_path.as_str());
            return Err(failure(SemErrorKind::InvalidInput, message));
        }
        i = i + 1;
    }
    proof {
        lemma_first_where_none(all, is_misplaced(style));
    }
    Ok(())
}

/// The name of the directory that a memory graph is built in: it is different
/// for each process and for each set of files.
pub open spec fn graph_dir_name<H: Fn(&str) -> String>(
    hash: H,
    files: Seq<FileInputView>,
    options: OptionsView,
    process: u32,
) -> Seq<char> {
    "sem-embedded-"@ + decimal(process as nat) + "-"@ + memory_graph_key(hash, files, options)
}

/// Makes the name of the directory that a memory graph is built in.
pub fn temp_graph_dir_name<H: Fn(&str) -> String>(
    files: &[SemFileInput],
    options: &SemEmbeddedOptions,
    process: u32,
    hash: &H,
) -> (name: String)
    requires
        is_content_hash(*hash),
    ensures
        name@ == graph_dir_name(*hash, files.deep_view(), options.deep_view(), process),
{
    let mut name = "sem-embedded-".to_string();
    name.append(decimal_text(process as u64).as_str());
    name.append("-");
    name.append(memory_graph_cache_key(files, options, hash).as_str());
    name
}

// ---------------------------------------------------------------------------
// Snapshots

/// The paths of files.
pub open spec fn paths_of_files(files: Seq<FileInputView>) -> Seq<Seq<char>> {
    files.map_values(|file: FileInputView| file.file_path)
}

/// Lists the paths of files.
pub fn memory_file_paths(files: &[SemFileInput]) -> (paths: Vec<String>)
    ensures
        paths.deep_view() == paths_of_files(files.deep_view()),
{
    let ghost all = paths_of_files(files.deep_view());
    let mut paths: Vec<String> = Vec::new();
    let mut i: usize = 0;
    assert(paths.deep_view() =~= all.take(0));
    while i < files.len()
        invariant
            i <= files@.len(),
            all == paths_of_files(files.deep_view()),
            paths.deep_view() == all.take(i as int),
        decreases files@.len() - i,
    {
        push_item(&mut paths, files[i].file_path.clone());
        assert(paths.deep_view() =~= all.take(i + 1));
        i = i + 1;
    }
    assert(all.take(i as int) =~= all);
    paths
}

/// The snapshot of a graph that was built from files in memory. Its key tells
/// nothing of the directory that they were written to.
pub open spec fn memory_snapshot<H: Fn(&str) -> String>(
    hash: H,
    files: Seq<FileInputView>,
    options: OptionsView,
    graph: GraphView,
    entities: Seq<EntityView>,
) -> SnapshotView {
    SnapshotView {
        api_version: SEM_EMBEDDED_API_VERSION@,
        cache_key: memory_graph_key(hash, files, options),
        file_paths: sorted_texts(paths_of_files(files)),
        graph,
        entities,
        warnings: Seq::empty(),
    }
}

/// What is reported once `written` of the files are written.
pub open spec fn overlay_written(written: usize, files: usize) -> ProgressView {
    ProgressView {
        stage: "graphOverlay"@,
        message: "Wrote in-memory graph overlay"@,
        completed: Some(written),
        total: Some(files),
    }
}

/// Whether each of the first `written` files is reported once it is written.
pub open spec fn overlay_is_reported(
    execution: &SemExecutionContext<'_>,
    written: usize,
    files: usize,
) -> bool {
    forall|i: usize|
        0 < i <= written ==> is_reported(execution, #[trigger] overlay_written(i, files))
}

/// What is reported once `written` of the files are written.
pub fn overlay_event(written: usize, files: usize) -> (event: SemProgressEvent)
    ensures
        event.deep_view() == overlay_written(written, files),
{
    progress_event("graphOverlay", "Wrote in-memory graph overlay", Some(written), Some(files))
}

/// Whether the files of a memory graph may be written, given what the token
/// said: a path is looked at only if the work goes on.
pub fn begin_memory_graph_unless(
    is_cancelled: bool,
    files: &[SemFileInput],
    style: PathStyle,
) -> (outcome: SemResult<()>)
    ensures
        match (outcome, first_where(files.deep_view(), is_misplaced(style))) {
            (Ok(()), None) => !is_cancelled,
            (Err(error), Some(file)) => error.deep_view() == if is_cancelled {
                cancelled()
            } else {
                misplaced(file.file_path)
            },
            (Err(error), None) => is_cancelled && error.deep_view() == cancelled(),
            _ => false,
        },
{
    if let Err(error) = unless_cancelled(is_cancelled) {
        return Err(error);
    }
    validate_memory_files(files, style)
}

/// What comes before the files of a memory graph are written: fails if the
/// work is cancelled or a path leaves the directory of the graph.
pub fn begin_memory_graph(
    files: &[SemFileInput],
    style: PathStyle,
    execution: &SemExecutionContext<'_>,
) -> (outcome: SemResult<()>)
    ensures
        match (outcome, first_where(files.deep_view(), is_misplaced(style))) {
            (Ok(()), None) => may_be_told(execution, false),
            (Err(error), Some(file)) => {
                ||| may_be_told(execution, false) && error.deep_view() == misplaced(file.file_path)
                ||| may_be_told(execution, true) && error.deep_view() == cancelled()
            },
            (Err(error), None) => may_be_told(execution, true) && error.deep_view() == cancelled(),
            _ => false,
        },
{
    begin_memory_graph_unless(is_cancelled(execution), files, style)
}

/// What comes after the files of a memory graph are written: the snapshot of
/// the graph that was built from them, under a key of their own.
pub fn finish_memory_graph<H: Fn(&str) -> String>(
    root: &str,
    files: &[SemFileInput],
    options: &SemEmbeddedOptions,
    execution: &SemExecutionContext<'_>,
    graph: EntityGraph,
    entities: Vec<SemanticEntity>,
    hash: &H,
) -> (outcome: SemResult<SemGraphSnapshot>)
    requires
        is_content_hash(*hash),
        graph.entities.wf(),
    ensures
        may_be_told(execution, outcome is Err),
        match outcome {
            Ok(snapshot) => {
                &&& graph_is_reported(execution, files@.len() as usize)
                &&& snapshot.wf()
                &&& snapshot.deep_view() == memory_snapshot(
                    *hash,
                    files.deep_view(),
                    options.deep_view(),
                    graph.deep_view(),
                    entities.deep_view(),
                )
            },
            Err(error) => error.deep_view() == cancelled(),
        },
{
    let paths = memory_file_paths(files);
    match build_repo_graph_with_execution(
        root,
        slice_of(&paths),
        options,
        execution,
        graph,
        entities,
        hash,
    ) {
        Ok(snapshot) => {
            let mut snapshot = snapshot;
            snapshot.cache_key = memory_graph_cache_key(files, options, hash);
            Ok(snapshot)
        },
        Err(error) => Err(error),
    }
}

/// Makes the snapshot of the graph of files in memory, given what was built from
/// them, unless the work is cancelled. The host has written the files already:
/// here it is reported of each that it was.
pub fn build_memory_graph_with_execution<H: Fn(&str) -> String>(
    root: &str,
    files: &[SemFileInput],
    style: PathStyle,
    options: &SemEmbeddedOptions,
    execution: &SemExecutionContext<'_>,
    graph: EntityGraph,
    entities: Vec<SemanticEntity>,
    hash: &H,
) -> (outcome: SemResult<SemGraphSnapshot>)
    requires
        is_content_hash(*hash),
        graph.entities.wf(),
    ensures
        match (outcome, first_where(files.deep_view(), is_misplaced(style))) {
            (Ok(snapshot), None) => {
                &&& may_be_told(execution, false)
                &&& overlay_is_reported(execution, files@.len() as usize, files@.len() as usize)
                &&& graph_is_reported(execution, files@.len() as usize)
                &&& snapshot.wf()
                &&& snapshot.deep_view() == memory_snapshot(
                    *hash,
                    files.deep_view(),
                    options.deep_view(),
                    graph.deep_view(),
                    entities.deep_view(),
                )
            },
            (Err(error), Some(file)) => {
                ||| may_be_told(execution, false) && error.deep_view() == misplaced(file.file_path)
                ||| may_be_told(execution, true) && error.deep_view() == cancelled()
            },
            (Err(error), None) => may_be_told(execution, true) && error.deep_view() == cancelled(),
            _ => false,
        },
{
    if let Err(error) = begin_memory_graph(files, style, execution) {
        return Err(error);
    }
    let n: usize = files.len();
    let mut i: usize = 0;
    while i < n
        invariant
            i <= n,
            n == files@.len(),
            overlay_is_reported(execution, i, n),
            first_where(files.deep_view(), is_misplaced(style)) is None,
        decreases n - i,
    {
        if let Err(error) = ensure_not_cancelled(execution) {
            return Err(error);
        }
        i = i + 1;
        report_progress(execution, overlay_event(i, n));
    }
    finish_memory_graph(root, files, options, execution, graph, entities, hash)
}

/// Makes the snapshot of the graph of files in memory, given what was built from
/// them.
pub fn build_memory_graph<H: Fn(&str) -> String>(
    root: &str,
    files: &[SemFileInput],
    style: PathStyle,
    options: &SemEmbeddedOptions,
    graph: EntityGraph,
    entities: Vec<SemanticEntity>,
    hash: &H,
) -> (outcome: SemResult<SemGraphSnapshot>)
    requires
        is_content_hash(*hash),
        graph.entities.wf(),
    ensures
        match (outcome, first_where(files.deep_view(), is_misplaced(style))) {
            (Ok(snapshot), None) => {
                &&& snapshot.wf()
                &&& snapshot.deep_view() == memory_snapshot(
                    *hash,
                    files.deep_view(),
                    options.deep_view(),
                    graph.deep_view(),
                    entities.deep_view(),
                )
            },
            (Err(error), Some(file)) => error.deep_view() == misplaced(file.file_path),
            _ => false,
        },
{
    build_memory_graph_with_execution(
        root,
        files,
        style,
        options,
        &SemExecutionContext::default(),
        graph,
        entities,
        hash,
    )
}

/// Where a memory graph may be built, no file is written outside of its
/// directory; where it may not, some file would be.
pub proof fn law_only_files_inside_are_accepted(files: Seq<FileInputView>, style: PathStyle)
    ensures
        first_where(files, is_misplaced(style)) is None <==> forall|i: int|
            0 <= i < files.len() ==> !leaves_directory((#[trigger] files[i]).file_path, style),
{
    lemma_first_where_found(files, is_misplaced(style));
    match first_where(files, is_misplaced(style)) {
        Some(file) => {
            let i = choose|i: int| 0 <= i < files.len() && files[i] == file;
            assert(leaves_directory(files[i].file_path, style));
        },
        None => {
            assert forall|i: int| 0 <= i < files.len() implies !leaves_directory(
                (#[trigger] files[i]).file_path,
                style,
            ) by {
                assert(!is_misplaced(style)(files[i]));
            }
        },
    }
}

} // verus!
