//! What callers hand in and get back.

use vstd::prelude::*;

use crate::model::{
    ChangeView, EntityGraph, EntityInfo, EntityRef, EntityView, FileStatus, GraphView, InfoView,
    RefView, SemanticChange, SemanticEntity,
};

verus! {

/// The version of the interface, which every result and every key carries.
pub const SEM_EMBEDDED_API_VERSION: &'static str = "sem-embedded-v1";

/// Why an operation failed.
#[derive(Debug, Clone, Copy, PartialEq, Eq, Structural)]
pub enum SemErrorKind {
    Cancelled,
    InvalidInput,
    Io,
    NotFound,
    AmbiguousTarget,
    Unsupported,
    Internal,
}

impl DeepView for SemErrorKind {
    type V = SemErrorKind;

    open spec fn deep_view(&self) -> SemErrorKind {
        *self
    }
}

/// A failed operation: its kind, and what went wrong in words.
#[derive(Debug, PartialEq, Eq)]
pub struct SemError {
    pub kind: SemErrorKind,
    pub message: String,
}

/// A [`SemError`] as a mathematical value.
#[verifier::ext_equal]
pub struct ErrorView {
    pub kind: SemErrorKind,
    pub message: Seq<char>,
}

impl DeepView for SemError {
    type V = ErrorView;

    open spec fn deep_view(&self) -> ErrorView {
        ErrorView {
            kind: self.kind.deep_view(),
            message: self.message.deep_view(),
        }
    }
}

impl Clone for SemError {
    fn clone(&self) -> (copy: Self)
        ensures
            copy.deep_view() == self.deep_view(),
    {
        let copy = SemError {
            kind: self.kind,
            message: self.message.clone(),
        };
        copy
    }
}

/// What an operation gives, or how it failed.
pub type SemResult<T> = Result<T, SemError>;

/// How far an operation has come.
#[derive(Debug, PartialEq, Eq)]
pub struct SemProgressEvent {
    pub stage: String,
    pub message: String,
    pub completed: Option<usize>,
    pub total: Option<usize>,
}

/// A [`SemProgressEvent`] as a mathematical value.
#[verifier::ext_equal]
pub struct ProgressView {
    pub stage: Seq<char>,
    pub message: Seq<char>,
    pub completed: Option<usize>,
    pub total: Option<usize>,
}

impl DeepView for SemProgressEvent {
    type V = ProgressView;

    open spec fn deep_view(&self) -> ProgressView {
        ProgressView {
            stage: self.stage.deep_view(),
            message: self.message.deep_view(),
            completed: self.completed.deep_view(),
            total: self.total.deep_view(),
        }
    }
}

impl Clone for SemProgressEvent {
    fn clone(&self) -> (copy: Self)
        ensures
            copy.deep_view() == self.deep_view(),
    {
        let copy = SemProgressEvent {
            stage: self.stage.clone(),
            message: self.message.clone(),
            completed: self.completed.clone(),
            total: self.total.clone(),
        };
        copy
    }
}

/// Controls optional repository-local configuration.
/// 
/// The default loads neither `.semrc` nor `.gitattributes`, so that results
/// come from the supplied content alone.
#[derive(Debug)]
pub struct SemEmbeddedOptions {
    pub root: Option<String>,
    pub load_semrc: bool,
    pub load_gitattributes: bool,
}

/// A [`SemEmbeddedOptions`] as a mathematical value.
#[verifier::ext_equal]
pub struct OptionsView {
    pub root: Option<Seq<char>>,
    pub load_semrc: bool,
    pub load_gitattributes: bool,
}

impl DeepView for SemEmbeddedOptions {
    type V = OptionsView;

    open spec fn deep_view(&self) -> OptionsView {
        OptionsView {
            root: self.root.deep_view(),
            load_semrc: self.load_semrc.deep_view(),
            load_gitattributes: self.load_gitattributes.deep_view(),
        }
    }
}

impl Clone for SemEmbeddedOptions {
    fn clone(&self) -> (copy: Self)
        ensures
            copy.deep_view() == self.deep_view(),
    {
        let copy = SemEmbeddedOptions {
            root: self.root.clone(),
            load_semrc: self.load_semrc,
            load_gitattributes: self.load_gitattributes,
        };
        copy
    }
}

/// The bounds of a search for source files.
#[derive(Debug)]
pub struct SemRepoScanOptions {
    pub max_files: usize,
    pub max_file_bytes: u64,
    pub max_depth: usize,
    pub include_hidden: bool,
    pub extra_skip_dirs: Vec<String>,
}

/// A [`SemRepoScanOptions`] as a mathematical value.
#[verifier::ext_equal]
pub struct ScanOptionsView {
    pub max_files: usize,
    pub max_file_bytes: u64,
    pub max_depth: usize,
    pub include_hidden: bool,
    pub extra_skip_dirs: Seq<Seq<char>>,
}

impl DeepView for SemRepoScanOptions {
    type V = ScanOptionsView;

    open spec fn deep_view(&self) -> ScanOptionsView {
        ScanOptionsView {
            max_files: self.max_files.deep_view(),
            max_file_bytes: self.max_file_bytes.deep_view(),
            max_depth: self.max_depth.deep_view(),
            include_hidden: self.include_hidden.deep_view(),
            extra_skip_dirs: self.extra_skip_dirs.deep_view(),
        }
    }
}

impl Clone for SemRepoScanOptions {
    fn clone(&self) -> (copy: Self)
        ensures
            copy.deep_view() == self.deep_view(),
    {
        let copy = SemRepoScanOptions {
            max_files: self.max_files,
            max_file_bytes: self.max_file_bytes,
            max_depth: self.max_depth,
            include_hidden: self.include_hidden,
            extra_skip_dirs: self.extra_skip_dirs.clone(),
        };
        assert(copy.extra_skip_dirs.deep_view() =~= self.extra_skip_dirs.deep_view());
        copy
    }
}

/// A file that a search left out, and why.
#[derive(Debug)]
pub struct SemSkippedFile {
    pub path: String,
    pub reason: String,
}

/// A [`SemSkippedFile`] as a mathematical value.
#[verifier::ext_equal]
pub struct SkippedView {
    pub path: Seq<char>,
    pub reason: Seq<char>,
}

impl DeepView for SemSkippedFile {
    type V = SkippedView;

    open spec fn deep_view(&self) -> SkippedView {
        SkippedView {
            path: self.path.deep_view(),
            reason: self.reason.deep_view(),
        }
    }
}

impl Clone for SemSkippedFile {
    fn clone(&self) -> (copy: Self)
        ensures
            copy.deep_view() == self.deep_view(),
    {
        let copy = SemSkippedFile {
            path: self.path.clone(),
            reason: self.reason.clone(),
        };
        copy
    }
}

/// The source files that a search found.
#[derive(Debug)]
pub struct SemDiscoveredFiles {
    pub api_version: String,
    pub cache_key: String,
    pub files: Vec<String>,
    pub skipped: Vec<SemSkippedFile>,
    pub warnings: Vec<String>,
}

/// A [`SemDiscoveredFiles`] as a mathematical value.
#[verifier::ext_equal]
pub struct DiscoveredView {
    pub api_version: Seq<char>,
    pub cache_key: Seq<char>,
    pub files: Seq<Seq<char>>,
    pub skipped: Seq<SkippedView>,
    pub warnings: Seq<Seq<char>>,
}

impl DeepView for SemDiscoveredFiles {
    type V = DiscoveredView;

    open spec fn deep_view(&self) -> DiscoveredView {
        DiscoveredView {
            api_version: self.api_version.deep_view(),
            cache_key: self.cache_key.deep_view(),
            files: self.files.deep_view(),
            skipped: self.skipped.deep_view(),
            warnings: self.warnings.deep_view(),
        }
    }
}

impl Clone for SemDiscoveredFiles {
    fn clone(&self) -> (copy: Self)
        ensures
            copy.deep_view() == self.deep_view(),
    {
        let copy = SemDiscoveredFiles {
            api_version: self.api_version.clone(),
            cache_key: self.cache_key.clone(),
            files: self.files.clone(),
            skipped: self.skipped.clone(),
            warnings: self.warnings.clone(),
        };
        assert(copy.files.deep_view() =~= self.files.deep_view());
        assert(copy.skipped.deep_view() =~= self.skipped.deep_view());
        assert(copy.warnings.deep_view() =~= self.warnings.deep_view());
        copy
    }
}

/// A file held in memory.
#[derive(Debug)]
pub struct SemFileInput {
    pub file_path: String,
    pub content: String,
}

/// A [`SemFileInput`] as a mathematical value.
#[verifier::ext_equal]
pub struct FileInputView {
    pub file_path: Seq<char>,
    pub content: Seq<char>,
}

impl DeepView for SemFileInput {
    type V = FileInputView;

    open spec fn deep_view(&self) -> FileInputView {
        FileInputView {
            file_path: self.file_path.deep_view(),
            content: self.content.deep_view(),
        }
    }
}

impl Clone for SemFileInput {
    fn clone(&self) -> (copy: Self)
        ensures
            copy.deep_view() == self.deep_view(),
    {
        let copy = SemFileInput {
            file_path: self.file_path.clone(),
            content: self.content.clone(),
        };
        copy
    }
}

/// Lines of a file, both ends among them, counted from one.
#[derive(Debug, Clone, Copy, PartialEq, Eq, Structural)]
pub struct SemLineRange {
    pub start_line: usize,
    pub end_line: usize,
}

impl DeepView for SemLineRange {
    type V = SemLineRange;

    open spec fn deep_view(&self) -> SemLineRange {
        *self
    }
}

/// One hunk of a diff, with the lines it covers on either side.
#[derive(Debug)]
pub struct SemHunk {
    pub hunk_id: Option<String>,
    pub hunk_index: usize,
    pub hunk_header: Option<String>,
    pub old_range: Option<SemLineRange>,
    pub new_range: Option<SemLineRange>,
}

/// A [`SemHunk`] as a mathematical value.
#[verifier::ext_equal]
pub struct HunkView {
    pub hunk_id: Option<Seq<char>>,
    pub hunk_index: usize,
    pub hunk_header: Option<Seq<char>>,
    pub old_range: Option<SemLineRange>,
    pub new_range: Option<SemLineRange>,
}

impl DeepView for SemHunk {
    type V = HunkView;

    open spec fn deep_view(&self) -> HunkView {
        HunkView {
            hunk_id: self.hunk_id.deep_view(),
            hunk_index: self.hunk_index.deep_view(),
            hunk_header: self.hunk_header.deep_view(),
            old_range: self.old_range.deep_view(),
            new_range: self.new_range.deep_view(),
        }
    }
}

impl Clone for SemHunk {
    fn clone(&self) -> (copy: Self)
        ensures
            copy.deep_view() == self.deep_view(),
    {
        let copy = SemHunk {
            hunk_id: self.hunk_id.clone(),
            hunk_index: self.hunk_index,
            hunk_header: self.hunk_header.clone(),
            old_range: self.old_range.clone(),
            new_range: self.new_range.clone(),
        };
        copy
    }
}

/// A changed file with its contents before and after.
#[derive(Debug)]
pub struct SemFileChange {
    pub file_path: String,
    pub status: FileStatus,
    pub old_file_path: Option<String>,
    pub before_content: Option<String>,
    pub after_content: Option<String>,
    pub hunks: Vec<SemHunk>,
}

/// A [`SemFileChange`] as a mathematical value.
#[verifier::ext_equal]
pub struct FileChangeView {
    pub file_path: Seq<char>,
    pub status: FileStatus,
    pub old_file_path: Option<Seq<char>>,
    pub before_content: Option<Seq<char>>,
    pub after_content: Option<Seq<char>>,
    pub hunks: Seq<HunkView>,
}

impl DeepView for SemFileChange {
    type V = FileChangeView;

    open spec fn deep_view(&self) -> FileChangeView {
        FileChangeView {
            file_path: self.file_path.deep_view(),
            status: self.status.deep_view(),
            old_file_path: self.old_file_path.deep_view(),
            before_content: self.before_content.deep_view(),
            after_content: self.after_content.deep_view(),
            hunks: self.hunks.deep_view(),
        }
    }
}

impl Clone for SemFileChange {
    fn clone(&self) -> (copy: Self)
        ensures
            copy.deep_view() == self.deep_view(),
    {
        let copy = SemFileChange {
            file_path: self.file_path.clone(),
            status: self.status,
            old_file_path: self.old_file_path.clone(),
            before_content: self.before_content.clone(),
            after_content: self.after_content.clone(),
            hunks: self.hunks.clone(),
        };
        assert(copy.hunks.deep_view() =~= self.hunks.deep_view());
        copy
    }
}

/// Where an entity stands.
#[derive(Debug, PartialEq, Eq)]
pub struct SemEntityRange {
    pub file_path: String,
    pub start_line: usize,
    pub end_line: usize,
}

/// A [`SemEntityRange`] as a mathematical value.
#[verifier::ext_equal]
pub struct RangeView {
    pub file_path: Seq<char>,
    pub start_line: usize,
    pub end_line: usize,
}

impl DeepView for SemEntityRange {
    type V = RangeView;

    open spec fn deep_view(&self) -> RangeView {
        RangeView {
            file_path: self.file_path.deep_view(),
            start_line: self.start_line.deep_view(),
            end_line: self.end_line.deep_view(),
        }
    }
}

impl Clone for SemEntityRange {
    fn clone(&self) -> (copy: Self)
        ensures
            copy.deep_view() == self.deep_view(),
    {
        let copy = SemEntityRange {
            file_path: self.file_path.clone(),
            start_line: self.start_line,
            end_line: self.end_line,
        };
        copy
    }
}

/// A hunk that touches a changed entity, on the side or sides it does.
#[derive(Debug)]
pub struct SemHunkOverlap {
    pub hunk_id: Option<String>,
    pub hunk_index: usize,
    pub hunk_header: Option<String>,
    pub file_path: String,
    pub old_file_path: Option<String>,
    pub old_range: Option<SemLineRange>,
    pub new_range: Option<SemLineRange>,
    pub overlaps_before: bool,
    pub overlaps_after: bool,
}

/// A [`SemHunkOverlap`] as a mathematical value.
#[verifier::ext_equal]
pub struct OverlapView {
    pub hunk_id: Option<Seq<char>>,
    pub hunk_index: usize,
    pub hunk_header: Option<Seq<char>>,
    pub file_path: Seq<char>,
    pub old_file_path: Option<Seq<char>>,
    pub old_range: Option<SemLineRange>,
    pub new_range: Option<SemLineRange>,
    pub overlaps_before: bool,
    pub overlaps_after: bool,
}

impl DeepView for SemHunkOverlap {
    type V = OverlapView;

    open spec fn deep_view(&self) -> OverlapView {
        OverlapView {
            hunk_id: self.hunk_id.deep_view(),
            hunk_index: self.hunk_index.deep_view(),
            hunk_header: self.hunk_header.deep_view(),
            file_path: self.file_path.deep_view(),
            old_file_path: self.old_file_path.deep_view(),
            old_range: self.old_range.deep_view(),
            new_range: self.new_range.deep_view(),
            overlaps_before: self.overlaps_before.deep_view(),
            overlaps_after: self.overlaps_after.deep_view(),
        }
    }
}

impl Clone for SemHunkOverlap {
    fn clone(&self) -> (copy: Self)
        ensures
            copy.deep_view() == self.deep_view(),
    {
        let copy = SemHunkOverlap {
            hunk_id: self.hunk_id.clone(),
            hunk_index: self.hunk_index,
            hunk_header: self.hunk_header.clone(),
            file_path: self.file_path.clone(),
            old_file_path: self.old_file_path.clone(),
            old_range: self.old_range.clone(),
            new_range: self.new_range.clone(),
            overlaps_before: self.overlaps_before,
            overlaps_after: self.overlaps_after,
        };
        copy
    }
}

/// How many entities changed, and how.
#[derive(Debug, Clone, Copy)]
pub struct SemDiffSummary {
    pub file_count: usize,
    pub added_count: usize,
    pub modified_count: usize,
    pub deleted_count: usize,
    pub moved_count: usize,
    pub renamed_count: usize,
    pub reordered_count: usize,
    pub orphan_count: usize,
}

impl DeepView for SemDiffSummary {
    type V = SemDiffSummary;

    open spec fn deep_view(&self) -> SemDiffSummary {
        *self
    }
}

/// A changed entity with its places and the hunks that touch it.
#[derive(Debug)]
pub struct SemEmbeddedChange {
    pub change: SemanticChange,
    pub before_range: Option<SemEntityRange>,
    pub after_range: Option<SemEntityRange>,
    pub hunk_overlaps: Vec<SemHunkOverlap>,
}

/// A [`SemEmbeddedChange`] as a mathematical value.
#[verifier::ext_equal]
pub struct EmbeddedChangeView {
    pub change: ChangeView,
    pub before_range: Option<RangeView>,
    pub after_range: Option<RangeView>,
    pub hunk_overlaps: Seq<OverlapView>,
}

impl DeepView for SemEmbeddedChange {
    type V = EmbeddedChangeView;

    open spec fn deep_view(&self) -> EmbeddedChangeView {
        EmbeddedChangeView {
            change: self.change.deep_view(),
            before_range: self.before_range.deep_view(),
            after_range: self.after_range.deep_view(),
            hunk_overlaps: self.hunk_overlaps.deep_view(),
        }
    }
}

impl Clone for SemEmbeddedChange {
    fn clone(&self) -> (copy: Self)
        ensures
            copy.deep_view() == self.deep_view(),
    {
        let copy = SemEmbeddedChange {
            change: self.change.clone(),
            before_range: self.before_range.clone(),
            after_range: self.after_range.clone(),
            hunk_overlaps: self.hunk_overlaps.clone(),
        };
        assert(copy.hunk_overlaps.deep_view() =~= self.hunk_overlaps.deep_view());
        copy
    }
}

/// A diff at entity granularity.
#[derive(Debug)]
pub struct SemDiffAnalysis {
    pub api_version: String,
    pub cache_key: String,
    pub summary: SemDiffSummary,
    pub changes: Vec<SemEmbeddedChange>,
}

/// A [`SemDiffAnalysis`] as a mathematical value.
#[verifier::ext_equal]
pub struct AnalysisView {
    pub api_version: Seq<char>,
    pub cache_key: Seq<char>,
    pub summary: SemDiffSummary,
    pub changes: Seq<EmbeddedChangeView>,
}

impl DeepView for SemDiffAnalysis {
    type V = AnalysisView;

    open spec fn deep_view(&self) -> AnalysisView {
        AnalysisView {
            api_version: self.api_version.deep_view(),
            cache_key: self.cache_key.deep_view(),
            summary: self.summary.deep_view(),
            changes: self.changes.deep_view(),
        }
    }
}

impl Clone for SemDiffAnalysis {
    fn clone(&self) -> (copy: Self)
        ensures
            copy.deep_view() == self.deep_view(),
    {
        let copy = SemDiffAnalysis {
            api_version: self.api_version.clone(),
            cache_key: self.cache_key.clone(),
            summary: self.summary,
            changes: self.changes.clone(),
        };
        assert(copy.changes.deep_view() =~= self.changes.deep_view());
        copy
    }
}

/// The entities of a set of files.
#[derive(Debug)]
pub struct SemEntityIndex {
    pub api_version: String,
    pub cache_key: String,
    pub entities: Vec<SemanticEntity>,
}

/// A [`SemEntityIndex`] as a mathematical value.
#[verifier::ext_equal]
pub struct IndexView {
    pub api_version: Seq<char>,
    pub cache_key: Seq<char>,
    pub entities: Seq<EntityView>,
}

impl DeepView for SemEntityIndex {
    type V = IndexView;

    open spec fn deep_view(&self) -> IndexView {
        IndexView {
            api_version: self.api_version.deep_view(),
            cache_key: self.cache_key.deep_view(),
            entities: self.entities.deep_view(),
        }
    }
}

impl Clone for SemEntityIndex {
    fn clone(&self) -> (copy: Self)
        ensures
            copy.deep_view() == self.deep_view(),
    {
        let copy = SemEntityIndex {
            api_version: self.api_version.clone(),
            cache_key: self.cache_key.clone(),
            entities: self.entities.clone(),
        };
        assert(copy.entities.deep_view() =~= self.entities.deep_view());
        copy
    }
}

/// An entity graph with the entities it was built from.
#[derive(Debug)]
pub struct SemGraphSnapshot {
    pub api_version: String,
    pub cache_key: String,
    pub file_paths: Vec<String>,
    pub graph: EntityGraph,
    pub entities: Vec<SemanticEntity>,
    pub warnings: Vec<String>,
}

/// A [`SemGraphSnapshot`] as a mathematical value.
#[verifier::ext_equal]
pub struct SnapshotView {
    pub api_version: Seq<char>,
    pub cache_key: Seq<char>,
    pub file_paths: Seq<Seq<char>>,
    pub graph: GraphView,
    pub entities: Seq<EntityView>,
    pub warnings: Seq<Seq<char>>,
}

impl DeepView for SemGraphSnapshot {
    type V = SnapshotView;

    open spec fn deep_view(&self) -> SnapshotView {
        SnapshotView {
            api_version: self.api_version.deep_view(),
            cache_key: self.cache_key.deep_view(),
            file_paths: self.file_paths.deep_view(),
            graph: self.graph.deep_view(),
            entities: self.entities.deep_view(),
            warnings: self.warnings.deep_view(),
        }
    }
}

/// A snapshot in a form that can be stored.
#[derive(Debug)]
pub struct SemGraphCacheRecord {
    pub api_version: String,
    pub cache_key: String,
    pub file_paths: Vec<String>,
    pub entities: Vec<SemanticEntity>,
    pub entity_infos: Vec<EntityInfo>,
    pub edges: Vec<EntityRef>,
    pub warnings: Vec<String>,
}

/// A [`SemGraphCacheRecord`] as a mathematical value.
#[verifier::ext_equal]
pub struct RecordView {
    pub api_version: Seq<char>,
    pub cache_key: Seq<char>,
    pub file_paths: Seq<Seq<char>>,
    pub entities: Seq<EntityView>,
    pub entity_infos: Seq<InfoView>,
    pub edges: Seq<RefView>,
    pub warnings: Seq<Seq<char>>,
}

impl DeepView for SemGraphCacheRecord {
    type V = RecordView;

    open spec fn deep_view(&self) -> RecordView {
        RecordView {
            api_version: self.api_version.deep_view(),
            cache_key: self.cache_key.deep_view(),
            file_paths: self.file_paths.deep_view(),
            entities: self.entities.deep_view(),
            entity_infos: self.entity_infos.deep_view(),
            edges: self.edges.deep_view(),
            warnings: self.warnings.deep_view(),
        }
    }
}

impl Clone for SemGraphCacheRecord {
    fn clone(&self) -> (copy: Self)
        ensures
            copy.deep_view() == self.deep_view(),
    {
        let copy = SemGraphCacheRecord {
            api_version: self.api_version.clone(),
            cache_key: self.cache_key.clone(),
            file_paths: self.file_paths.clone(),
            entities: self.entities.clone(),
            entity_infos: self.entity_infos.clone(),
            edges: self.edges.clone(),
            warnings: self.warnings.clone(),
        };
        assert(copy.file_paths.deep_view() =~= self.file_paths.deep_view());
        assert(copy.entities.deep_view() =~= self.entities.deep_view());
        assert(copy.entity_infos.deep_view() =~= self.entity_infos.deep_view());
        assert(copy.edges.deep_view() =~= self.edges.deep_view());
        assert(copy.warnings.deep_view() =~= self.warnings.deep_view());
        copy
    }
}

/// Names an entity by its id, or by its name and perhaps its file.
#[derive(Debug)]
pub struct SemEntityTarget {
    pub entity_id: Option<String>,
    pub entity_name: Option<String>,
    pub file_path: Option<String>,
}

/// A [`SemEntityTarget`] as a mathematical value.
#[verifier::ext_equal]
pub struct TargetView {
    pub entity_id: Option<Seq<char>>,
    pub entity_name: Option<Seq<char>>,
    pub file_path: Option<Seq<char>>,
}

impl DeepView for SemEntityTarget {
    type V = TargetView;

    open spec fn deep_view(&self) -> TargetView {
        TargetView {
            entity_id: self.entity_id.deep_view(),
            entity_name: self.entity_name.deep_view(),
            file_path: self.file_path.deep_view(),
        }
    }
}

impl Clone for SemEntityTarget {
    fn clone(&self) -> (copy: Self)
        ensures
            copy.deep_view() == self.deep_view(),
    {
        let copy = SemEntityTarget {
            entity_id: self.entity_id.clone(),
            entity_name: self.entity_name.clone(),
            file_path: self.file_path.clone(),
        };
        copy
    }
}

/// A side of a diff.
#[derive(Debug, Clone, Copy, PartialEq, Eq, Structural)]
pub enum SemSide {
    Before,
    After,
}

impl DeepView for SemSide {
    type V = SemSide;

    open spec fn deep_view(&self) -> SemSide {
        *self
    }
}

/// A line of a file on one side of a diff.
#[derive(Debug)]
pub struct SemLocationTarget {
    pub file_path: String,
    pub line: usize,
    pub side: SemSide,
}

/// A [`SemLocationTarget`] as a mathematical value.
#[verifier::ext_equal]
pub struct LocationView {
    pub file_path: Seq<char>,
    pub line: usize,
    pub side: SemSide,
}

impl DeepView for SemLocationTarget {
    type V = LocationView;

    open spec fn deep_view(&self) -> LocationView {
        LocationView {
            file_path: self.file_path.deep_view(),
            line: self.line.deep_view(),
            side: self.side.deep_view(),
        }
    }
}

impl Clone for SemLocationTarget {
    fn clone(&self) -> (copy: Self)
        ensures
            copy.deep_view() == self.deep_view(),
    {
        let copy = SemLocationTarget {
            file_path: self.file_path.clone(),
            line: self.line,
            side: self.side,
        };
        copy
    }
}

/// A hunk of a file on one side of a diff.
#[derive(Debug)]
pub struct SemHunkTarget {
    pub file_path: String,
    pub old_file_path: Option<String>,
    pub hunk_index: Option<usize>,
    pub hunk_header: Option<String>,
    pub side: SemSide,
    pub old_range: Option<SemLineRange>,
    pub new_range: Option<SemLineRange>,
}

/// A [`SemHunkTarget`] as a mathematical value.
#[verifier::ext_equal]
pub struct HunkTargetView {
    pub file_path: Seq<char>,
    pub old_file_path: Option<Seq<char>>,
    pub hunk_index: Option<usize>,
    pub hunk_header: Option<Seq<char>>,
    pub side: SemSide,
    pub old_range: Option<SemLineRange>,
    pub new_range: Option<SemLineRange>,
}

impl DeepView for SemHunkTarget {
    type V = HunkTargetView;

    open spec fn deep_view(&self) -> HunkTargetView {
        HunkTargetView {
            file_path: self.file_path.deep_view(),
            old_file_path: self.old_file_path.deep_view(),
            hunk_index: self.hunk_index.deep_view(),
            hunk_header: self.hunk_header.deep_view(),
            side: self.side.deep_view(),
            old_range: self.old_range.deep_view(),
            new_range: self.new_range.deep_view(),
        }
    }
}

impl Clone for SemHunkTarget {
    fn clone(&self) -> (copy: Self)
        ensures
            copy.deep_view() == self.deep_view(),
    {
        let copy = SemHunkTarget {
            file_path: self.file_path.clone(),
            old_file_path: self.old_file_path.clone(),
            hunk_index: self.hunk_index.clone(),
            hunk_header: self.hunk_header.clone(),
            side: self.side,
            old_range: self.old_range.clone(),
            new_range: self.new_range.clone(),
        };
        copy
    }
}

/// What is looked at: an entity, a line or a hunk.
#[derive(Debug)]
pub struct SemFocusTarget {
    pub entity: Option<SemEntityTarget>,
    pub location: Option<SemLocationTarget>,
    pub hunk: Option<SemHunkTarget>,
}

/// A [`SemFocusTarget`] as a mathematical value.
#[verifier::ext_equal]
pub struct FocusTargetView {
    pub entity: Option<TargetView>,
    pub location: Option<LocationView>,
    pub hunk: Option<HunkTargetView>,
}

impl DeepView for SemFocusTarget {
    type V = FocusTargetView;

    open spec fn deep_view(&self) -> FocusTargetView {
        FocusTargetView {
            entity: self.entity.deep_view(),
            location: self.location.deep_view(),
            hunk: self.hunk.deep_view(),
        }
    }
}

impl Clone for SemFocusTarget {
    fn clone(&self) -> (copy: Self)
        ensures
            copy.deep_view() == self.deep_view(),
    {
        let copy = SemFocusTarget {
            entity: self.entity.clone(),
            location: self.location.clone(),
            hunk: self.hunk.clone(),
        };
        copy
    }
}

/// An entity in focus, on one side of a diff.
#[derive(Debug)]
pub struct SemFocusedEntity {
    pub entity: SemanticEntity,
    pub range: SemEntityRange,
    pub side: SemSide,
}

/// A [`SemFocusedEntity`] as a mathematical value.
#[verifier::ext_equal]
pub struct FocusedView {
    pub entity: EntityView,
    pub range: RangeView,
    pub side: SemSide,
}

impl DeepView for SemFocusedEntity {
    type V = FocusedView;

    open spec fn deep_view(&self) -> FocusedView {
        FocusedView {
            entity: self.entity.deep_view(),
            range: self.range.deep_view(),
            side: self.side.deep_view(),
        }
    }
}

impl Clone for SemFocusedEntity {
    fn clone(&self) -> (copy: Self)
        ensures
            copy.deep_view() == self.deep_view(),
    {
        let copy = SemFocusedEntity {
            entity: self.entity.clone(),
            range: self.range.clone(),
            side: self.side,
        };
        copy
    }
}

/// What a focus target was resolved to.
#[derive(Debug)]
pub struct SemFocusResolution {
    pub api_version: String,
    pub cache_key: String,
    pub target_entity: Option<SemFocusedEntity>,
    pub overlapping_entities: Vec<SemFocusedEntity>,
    pub matching_changes: Vec<SemEmbeddedChange>,
    pub warnings: Vec<String>,
}

/// A [`SemFocusResolution`] as a mathematical value.
#[verifier::ext_equal]
pub struct ResolutionView {
    pub api_version: Seq<char>,
    pub cache_key: Seq<char>,
    pub target_entity: Option<FocusedView>,
    pub overlapping_entities: Seq<FocusedView>,
    pub matching_changes: Seq<EmbeddedChangeView>,
    pub warnings: Seq<Seq<char>>,
}

impl DeepView for SemFocusResolution {
    type V = ResolutionView;

    open spec fn deep_view(&self) -> ResolutionView {
        ResolutionView {
            api_version: self.api_version.deep_view(),
            cache_key: self.cache_key.deep_view(),
            target_entity: self.target_entity.deep_view(),
            overlapping_entities: self.overlapping_entities.deep_view(),
            matching_changes: self.matching_changes.deep_view(),
            warnings: self.warnings.deep_view(),
        }
    }
}

impl Clone for SemFocusResolution {
    fn clone(&self) -> (copy: Self)
        ensures
            copy.deep_view() == self.deep_view(),
    {
        let copy = SemFocusResolution {
            api_version: self.api_version.clone(),
            cache_key: self.cache_key.clone(),
            target_entity: self.target_entity.clone(),
            overlapping_entities: self.overlapping_entities.clone(),
            matching_changes: self.matching_changes.clone(),
            warnings: self.warnings.clone(),
        };
        assert(copy.overlapping_entities.deep_view() =~= self.overlapping_entities.deep_view());
        assert(copy.matching_changes.deep_view() =~= self.matching_changes.deep_view());
        assert(copy.warnings.deep_view() =~= self.warnings.deep_view());
        copy
    }
}

/// The bounds of an impact context.
#[derive(Debug, Clone, Copy)]
pub struct SemImpactRequest {
    pub token_budget: usize,
    pub max_depth: usize,
}

impl DeepView for SemImpactRequest {
    type V = SemImpactRequest;

    open spec fn deep_view(&self) -> SemImpactRequest {
        *self
    }
}

/// An entity that a change reaches, and over how many references.
#[derive(Debug)]
pub struct SemImpactEntity {
    pub entity: EntityInfo,
    pub depth: usize,
}

/// A [`SemImpactEntity`] as a mathematical value.
#[verifier::ext_equal]
pub struct ImpactEntityView {
    pub entity: InfoView,
    pub depth: usize,
}

impl DeepView for SemImpactEntity {
    type V = ImpactEntityView;

    open spec fn deep_view(&self) -> ImpactEntityView {
        ImpactEntityView {
            entity: self.entity.deep_view(),
            depth: self.depth.deep_view(),
        }
    }
}

impl Clone for SemImpactEntity {
    fn clone(&self) -> (copy: Self)
        ensures
            copy.deep_view() == self.deep_view(),
    {
        let copy = SemImpactEntity {
            entity: self.entity.clone(),
            depth: self.depth,
        };
        copy
    }
}

/// A piece of context for a reader.
#[derive(Debug)]
pub struct SemContextEntry {
    pub entity_id: String,
    pub entity_name: String,
    pub entity_type: String,
    pub file_path: String,
    pub role: String,
    pub content: String,
    pub estimated_tokens: usize,
}

/// A [`SemContextEntry`] as a mathematical value.
#[verifier::ext_equal]
pub struct ContextView {
    pub entity_id: Seq<char>,
    pub entity_name: Seq<char>,
    pub entity_type: Seq<char>,
    pub file_path: Seq<char>,
    pub role: Seq<char>,
    pub content: Seq<char>,
    pub estimated_tokens: usize,
}

impl DeepView for SemContextEntry {
    type V = ContextView;

    open spec fn deep_view(&self) -> ContextView {
        ContextView {
            entity_id: self.entity_id.deep_view(),
            entity_name: self.entity_name.deep_view(),
            entity_type: self.entity_type.deep_view(),
            file_path: self.file_path.deep_view(),
            role: self.role.deep_view(),
            content: self.content.deep_view(),
            estimated_tokens: self.estimated_tokens.deep_view(),
        }
    }
}

impl Clone for SemContextEntry {
    fn clone(&self) -> (copy: Self)
        ensures
            copy.deep_view() == self.deep_view(),
    {
        let copy = SemContextEntry {
            entity_id: self.entity_id.clone(),
            entity_name: self.entity_name.clone(),
            entity_type: self.entity_type.clone(),
            file_path: self.file_path.clone(),
            role: self.role.clone(),
            content: self.content.clone(),
            estimated_tokens: self.estimated_tokens,
        };
        copy
    }
}

/// An entity with all that it and its changes touch.
#[derive(Debug)]
pub struct SemImpactContext {
    pub api_version: String,
    pub cache_key: String,
    pub entity: EntityInfo,
    pub dependencies: Vec<EntityInfo>,
    pub dependents: Vec<EntityInfo>,
    pub impact: Vec<SemImpactEntity>,
    pub tests: Vec<EntityInfo>,
    pub context: Vec<SemContextEntry>,
}

/// A [`SemImpactContext`] as a mathematical value.
#[verifier::ext_equal]
pub struct ImpactView {
    pub api_version: Seq<char>,
    pub cache_key: Seq<char>,
    pub entity: InfoView,
    pub dependencies: Seq<InfoView>,
    pub dependents: Seq<InfoView>,
    pub impact: Seq<ImpactEntityView>,
    pub tests: Seq<InfoView>,
    pub context: Seq<ContextView>,
}

impl DeepView for SemImpactContext {
    type V = ImpactView;

    open spec fn deep_view(&self) -> ImpactView {
        ImpactView {
            api_version: self.api_version.deep_view(),
            cache_key: self.cache_key.deep_view(),
            entity: self.entity.deep_view(),
            dependencies: self.dependencies.deep_view(),
            dependents: self.dependents.deep_view(),
            impact: self.impact.deep_view(),
            tests: self.tests.deep_view(),
            context: self.context.deep_view(),
        }
    }
}

impl Clone for SemImpactContext {
    fn clone(&self) -> (copy: Self)
        ensures
            copy.deep_view() == self.deep_view(),
    {
        let copy = SemImpactContext {
            api_version: self.api_version.clone(),
            cache_key: self.cache_key.clone(),
            entity: self.entity.clone(),
            dependencies: self.dependencies.clone(),
            dependents: self.dependents.clone(),
            impact: self.impact.clone(),
            tests: self.tests.clone(),
            context: self.context.clone(),
        };
        assert(copy.dependencies.deep_view() =~= self.dependencies.deep_view());
        assert(copy.dependents.deep_view() =~= self.dependents.deep_view());
        assert(copy.impact.deep_view() =~= self.impact.deep_view());
        assert(copy.tests.deep_view() =~= self.tests.deep_view());
        assert(copy.context.deep_view() =~= self.context.deep_view());
        copy
    }
}

/// An entity that mentions a name, with a line that does.
#[derive(Debug)]
pub struct SemEntityReference {
    pub entity: EntityInfo,
    pub snippet: Option<String>,
}

/// A [`SemEntityReference`] as a mathematical value.
#[verifier::ext_equal]
pub struct ReferenceView {
    pub entity: InfoView,
    pub snippet: Option<Seq<char>>,
}

impl DeepView for SemEntityReference {
    type V = ReferenceView;

    open spec fn deep_view(&self) -> ReferenceView {
        ReferenceView {
            entity: self.entity.deep_view(),
            snippet: self.snippet.deep_view(),
        }
    }
}

impl Clone for SemEntityReference {
    fn clone(&self) -> (copy: Self)
        ensures
            copy.deep_view() == self.deep_view(),
    {
        let copy = SemEntityReference {
            entity: self.entity.clone(),
            snippet: self.snippet.clone(),
        };
        copy
    }
}

/// What a diff means for the entity in focus.
#[derive(Debug)]
pub struct SemDiffImpactContext {
    pub api_version: String,
    pub cache_key: String,
    pub focus: SemFocusResolution,
    pub repo_context: Option<SemImpactContext>,
    pub deleted_entity: Option<SemFocusedEntity>,
    pub references: Vec<SemEntityReference>,
    pub warnings: Vec<String>,
}

/// A [`SemDiffImpactContext`] as a mathematical value.
#[verifier::ext_equal]
pub struct DiffImpactView {
    pub api_version: Seq<char>,
    pub cache_key: Seq<char>,
    pub focus: ResolutionView,
    pub repo_context: Option<ImpactView>,
    pub deleted_entity: Option<FocusedView>,
    pub references: Seq<ReferenceView>,
    pub warnings: Seq<Seq<char>>,
}

impl DeepView for SemDiffImpactContext {
    type V = DiffImpactView;

    open spec fn deep_view(&self) -> DiffImpactView {
        DiffImpactView {
            api_version: self.api_version.deep_view(),
            cache_key: self.cache_key.deep_view(),
            focus: self.focus.deep_view(),
            repo_context: self.repo_context.deep_view(),
            deleted_entity: self.deleted_entity.deep_view(),
            references: self.references.deep_view(),
            warnings: self.warnings.deep_view(),
        }
    }
}

impl Clone for SemDiffImpactContext {
    fn clone(&self) -> (copy: Self)
        ensures
            copy.deep_view() == self.deep_view(),
    {
        let copy = SemDiffImpactContext {
            api_version: self.api_version.clone(),
            cache_key: self.cache_key.clone(),
            focus: self.focus.clone(),
            repo_context: self.repo_context.clone(),
            deleted_entity: self.deleted_entity.clone(),
            references: self.references.clone(),
            warnings: self.warnings.clone(),
        };
        assert(copy.references.deep_view() =~= self.references.deep_view());
        assert(copy.warnings.deep_view() =~= self.warnings.deep_view());
        copy
    }
}

/// The bounds of a review plan.
#[derive(Debug, Clone, Copy)]
pub struct SemLayerGenerationOptions {
    pub max_layers: usize,
    pub max_changes_per_layer: usize,
}

impl DeepView for SemLayerGenerationOptions {
    type V = SemLayerGenerationOptions;

    open spec fn deep_view(&self) -> SemLayerGenerationOptions {
        *self
    }
}

/// Changes that are reviewed together.
#[derive(Debug)]
pub struct SemReviewLayer {
    pub id: String,
    pub index: usize,
    pub title: String,
    pub summary: String,
    pub rationale: String,
    pub depends_on_layer_ids: Vec<String>,
    pub change_indices: Vec<usize>,
    pub atom_ids: Vec<String>,
    pub file_paths: Vec<String>,
    pub hunk_indices: Vec<usize>,
    pub entity_names: Vec<String>,
}

/// A [`SemReviewLayer`] as a mathematical value.
#[verifier::ext_equal]
pub struct LayerView {
    pub id: Seq<char>,
    pub index: usize,
    pub title: Seq<char>,
    pub summary: Seq<char>,
    pub rationale: Seq<char>,
    pub depends_on_layer_ids: Seq<Seq<char>>,
    pub change_indices: Seq<usize>,
    pub atom_ids: Seq<Seq<char>>,
    pub file_paths: Seq<Seq<char>>,
    pub hunk_indices: Seq<usize>,
    pub entity_names: Seq<Seq<char>>,
}

impl DeepView for SemReviewLayer {
    type V = LayerView;

    open spec fn deep_view(&self) -> LayerView {
        LayerView {
            id: self.id.deep_view(),
            index: self.index.deep_view(),
            title: self.title.deep_view(),
            summary: self.summary.deep_view(),
            rationale: self.rationale.deep_view(),
            depends_on_layer_ids: self.depends_on_layer_ids.deep_view(),
            change_indices: self.change_indices.deep_view(),
            atom_ids: self.atom_ids.deep_view(),
            file_paths: self.file_paths.deep_view(),
            hunk_indices: self.hunk_indices.deep_view(),
            entity_names: self.entity_names.deep_view(),
        }
    }
}

impl Clone for SemReviewLayer {
    fn clone(&self) -> (copy: Self)
        ensures
            copy.deep_view() == self.deep_view(),
    {
        let copy = SemReviewLayer {
            id: self.id.clone(),
            index: self.index,
            title: self.title.clone(),
            summary: self.summary.clone(),
            rationale: self.rationale.clone(),
            depends_on_layer_ids: self.depends_on_layer_ids.clone(),
            change_indices: self.change_indices.clone(),
            atom_ids: self.atom_ids.clone(),
            file_paths: self.file_paths.clone(),
            hunk_indices: self.hunk_indices.clone(),
            entity_names: self.entity_names.clone(),
        };
        assert(copy.depends_on_layer_ids.deep_view() =~= self.depends_on_layer_ids.deep_view());
        assert(copy.change_indices.deep_view() =~= self.change_indices.deep_view());
        assert(copy.atom_ids.deep_view() =~= self.atom_ids.deep_view());
        assert(copy.file_paths.deep_view() =~= self.file_paths.deep_view());
        assert(copy.hunk_indices.deep_view() =~= self.hunk_indices.deep_view());
        assert(copy.entity_names.deep_view() =~= self.entity_names.deep_view());
        copy
    }
}

/// The layers of a review, and what no layer holds.
#[derive(Debug)]
pub struct SemReviewLayerPlan {
    pub api_version: String,
    pub cache_key: String,
    pub layers: Vec<SemReviewLayer>,
    pub manual_review_change_indices: Vec<usize>,
    pub manual_review_atom_ids: Vec<String>,
    pub warnings: Vec<String>,
}

/// A [`SemReviewLayerPlan`] as a mathematical value.
#[verifier::ext_equal]
pub struct PlanView {
    pub api_version: Seq<char>,
    pub cache_key: Seq<char>,
    pub layers: Seq<LayerView>,
    pub manual_review_change_indices: Seq<usize>,
    pub manual_review_atom_ids: Seq<Seq<char>>,
    pub warnings: Seq<Seq<char>>,
}

impl DeepView for SemReviewLayerPlan {
    type V = PlanView;

    open spec fn deep_view(&self) -> PlanView {
        PlanView {
            api_version: self.api_version.deep_view(),
            cache_key: self.cache_key.deep_view(),
            layers: self.layers.deep_view(),
            manual_review_change_indices: self.manual_review_change_indices.deep_view(),
            manual_review_atom_ids: self.manual_review_atom_ids.deep_view(),
            warnings: self.warnings.deep_view(),
        }
    }
}

impl Clone for SemReviewLayerPlan {
    fn clone(&self) -> (copy: Self)
        ensures
            copy.deep_view() == self.deep_view(),
    {
        let copy = SemReviewLayerPlan {
            api_version: self.api_version.clone(),
            cache_key: self.cache_key.clone(),
            layers: self.layers.clone(),
            manual_review_change_indices: self.manual_review_change_indices.clone(),
            manual_review_atom_ids: self.manual_review_atom_ids.clone(),
            warnings: self.warnings.clone(),
        };
        assert(copy.layers.deep_view() =~= self.layers.deep_view());
        assert(copy.manual_review_change_indices.deep_view() =~= self.manual_review_change_indices.deep_view());
        assert(copy.manual_review_atom_ids.deep_view() =~= self.manual_review_atom_ids.deep_view());
        assert(copy.warnings.deep_view() =~= self.warnings.deep_view());
        copy
    }
}

/// A unit of review that the host supplies.
#[derive(Debug)]
pub struct SemReviewAtom {
    pub atom_id: String,
    pub file_path: String,
    pub old_file_path: Option<String>,
    pub role: Option<String>,
    pub semantic_kind: Option<String>,
    pub symbol_name: Option<String>,
    pub defined_symbols: Vec<String>,
    pub referenced_symbols: Vec<String>,
    pub old_range: Option<SemLineRange>,
    pub new_range: Option<SemLineRange>,
    pub hunk_indices: Vec<usize>,
    pub changed_lines: usize,
    pub manual_review: bool,
}

/// A [`SemReviewAtom`] as a mathematical value.
#[verifier::ext_equal]
pub struct AtomView {
    pub atom_id: Seq<char>,
    pub file_path: Seq<char>,
    pub old_file_path: Option<Seq<char>>,
    pub role: Option<Seq<char>>,
    pub semantic_kind: Option<Seq<char>>,
    pub symbol_name: Option<Seq<char>>,
    pub defined_symbols: Seq<Seq<char>>,
    pub referenced_symbols: Seq<Seq<char>>,
    pub old_range: Option<SemLineRange>,
    pub new_range: Option<SemLineRange>,
    pub hunk_indices: Seq<usize>,
    pub changed_lines: usize,
    pub manual_review: bool,
}

impl DeepView for SemReviewAtom {
    type V = AtomView;

    open spec fn deep_view(&self) -> AtomView {
        AtomView {
            atom_id: self.atom_id.deep_view(),
            file_path: self.file_path.deep_view(),
            old_file_path: self.old_file_path.deep_view(),
            role: self.role.deep_view(),
            semantic_kind: self.semantic_kind.deep_view(),
            symbol_name: self.symbol_name.deep_view(),
            defined_symbols: self.defined_symbols.deep_view(),
            referenced_symbols: self.referenced_symbols.deep_view(),
            old_range: self.old_range.deep_view(),
            new_range: self.new_range.deep_view(),
            hunk_indices: self.hunk_indices.deep_view(),
            changed_lines: self.changed_lines.deep_view(),
            manual_review: self.manual_review.deep_view(),
        }
    }
}

impl Clone for SemReviewAtom {
    fn clone(&self) -> (copy: Self)
        ensures
            copy.deep_view() == self.deep_view(),
    {
        let copy = SemReviewAtom {
            atom_id: self.atom_id.clone(),
            file_path: self.file_path.clone(),
            old_file_path: self.old_file_path.clone(),
            role: self.role.clone(),
            semantic_kind: self.semantic_kind.clone(),
            symbol_name: self.symbol_name.clone(),
            defined_symbols: self.defined_symbols.clone(),
            referenced_symbols: self.referenced_symbols.clone(),
            old_range: self.old_range.clone(),
            new_range: self.new_range.clone(),
            hunk_indices: self.hunk_indices.clone(),
            changed_lines: self.changed_lines,
            manual_review: self.manual_review,
        };
        assert(copy.defined_symbols.deep_view() =~= self.defined_symbols.deep_view());
        assert(copy.referenced_symbols.deep_view() =~= self.referenced_symbols.deep_view());
        assert(copy.hunk_indices.deep_view() =~= self.hunk_indices.deep_view());
        copy
    }
}

} // verus!
