//! The search for files that can be parsed. The library decides, step by step;
//! the host lists directories and reads files.

use std::collections::VecDeque;

use vstd::prelude::*;

use crate::collections::StringSet;
use crate::execution::{
    cancelled, failure, is_cancelled, is_reported, may_be_told, progress_event, report_progress,
    unless_cancelled, SemExecutionContext,
};
use crate::hash::is_content_hash;
use crate::keys::{discovery_cache_key, discovery_key};
use crate::order::{in_order, key_fn, lemma_sorted_by, sorted_strings, sorted_texts};
use crate::search::{has_hidden_segment, path_has_hidden_component, slashed, with_slashes};
use crate::seqs::{push_item, slice_of};
use crate::text::{chars_of, same_text};
use crate::types::{
    DiscoveredView, ErrorView, OptionsView, ProgressView, ScanOptionsView, SemDiscoveredFiles,
    SemEmbeddedOptions, SemErrorKind, SemProgressEvent, SemRepoScanOptions, SemResult,
    SemSkippedFile, SkippedView, SEM_EMBEDDED_API_VERSION,
};

verus! {

// ---------------------------------------------------------------------------
// Names and paths

/// The directories that are never searched.
pub open spec fn usual_skip_dirs() -> Seq<Seq<char>> {
    seq![
        ".git"@,
        ".sem"@,
        "node_modules"@,
        "target"@,
        "dist"@,
        "build"@,
        "coverage"@,
        ".next"@,
        ".turbo"@,
        ".venv"@,
        "vendor"@,
    ]
}

/// The directories that are not searched.
pub open spec fn skip_names(options: ScanOptionsView) -> Set<Seq<char>> {
    usual_skip_dirs().to_set().union(options.extra_skip_dirs.to_set())
}

/// Collects the directories that are not searched.
pub fn scan_skip_dirs(options: &SemRepoScanOptions) -> (names: StringSet)
    ensures
        names.wf(),
        names@ == skip_names(options.deep_view()),
{
    let mut usual: Vec<String> = Vec::new();
    push_item(&mut usual, ".git".to_string());
    push_item(&mut usual, ".sem".to_string());
    push_item(&mut usual, "node_modules".to_string());
    push_item(&mut usual, "target".to_string());
    push_item(&mut usual, "dist".to_string());
    push_item(&mut usual, "build".to_string());
    push_item(&mut usual, "coverage".to_string());
    push_item(&mut usual, ".next".to_string());
    push_item(&mut usual, ".turbo".to_string());
    push_item(&mut usual, ".venv".to_string());
    push_item(&mut usual, "vendor".to_string());
    assert(usual.deep_view() =~= usual_skip_dirs());
    let mut names = StringSet::new();
    names.insert_all(slice_of(&usual));
    names.insert_all(slice_of(&options.extra_skip_dirs));
    assert(names@ =~= skip_names(options.deep_view()));
    names
}

/// Whether a directory is left out: by its name or, where hidden ones are, for
/// being hidden.
pub open spec fn is_left_out(
    name: Seq<char>,
    include_hidden: bool,
    skip_dirs: Set<Seq<char>>,
) -> bool {
    skip_dirs.contains(name) || (!include_hidden && name.len() > 0 && name[0] == '.')
}

/// Whether a directory is left out of the search.
pub fn should_skip_scan_dir(name: &str, include_hidden: bool, skip_dirs: &StringSet) -> (skip: bool)
    requires
        skip_dirs.wf(),
    ensures
        skip == is_left_out(name@, include_hidden, skip_dirs@),
{
    let chars = chars_of(name);
    skip_dirs.contains(name) || (!include_hidden && chars.len() > 0 && chars[0] == '.')
}

/// The path of an entry below the root, given what is left of it without the
/// root, where that is text: its separators are slashes.
pub open spec fn relative_path(below_root: Option<Seq<char>>) -> Option<Seq<char>> {
    match below_root {
        Some(path) => Some(with_slashes(path)),
        None => None,
    }
}

/// The path of an entry below the root.
pub fn relative_repo_path(below_root: Option<&str>) -> (relative: Option<String>)
    ensures
        relative.deep_view() == relative_path(below_root.deep_view()),
{
    match below_root {
        Some(path) => Some(slashed(path)),
        None => None,
    }
}

// ---------------------------------------------------------------------------
// The state of a search

/// A directory that is to be searched, and how deep it lies.
#[derive(Clone, Copy)]
pub struct ScanDir {
    pub handle: usize,
    pub depth: usize,
    /// The names on the way to it, from the root down.
    pub names: Ghost<Seq<Seq<char>>>,
}

/// A [`ScanDir`] as a mathematical value.
#[verifier::ext_equal]
pub struct DirView {
    pub handle: usize,
    pub depth: usize,
    pub names: Seq<Seq<char>>,
}

impl DeepView for ScanDir {
    type V = DirView;

    open spec fn deep_view(&self) -> DirView {
        DirView { handle: self.handle, depth: self.depth, names: self.names@ }
    }
}

/// An entry of a directory, as the host lists it.
#[derive(Debug)]
pub struct ScanEntry {
    /// What the host knows the entry by.
    pub handle: usize,
    /// The path below the root, where it has one that is text.
    pub relative: Option<String>,
    /// The last part of the path; empty where it is not text.
    pub name: String,
    /// Whether the entry is a directory.
    pub is_dir: bool,
}

/// A [`ScanEntry`] as a mathematical value.
#[verifier::ext_equal]
pub struct EntryView {
    pub handle: usize,
    pub relative: Option<Seq<char>>,
    pub name: Seq<char>,
    pub is_dir: bool,
}

impl DeepView for ScanEntry {
    type V = EntryView;

    open spec fn deep_view(&self) -> EntryView {
        EntryView {
            handle: self.handle.deep_view(),
            relative: self.relative.deep_view(),
            name: self.name.deep_view(),
            is_dir: self.is_dir.deep_view(),
        }
    }
}

impl Clone for ScanEntry {
    fn clone(&self) -> (copy: Self)
        ensures
            copy.deep_view() == self.deep_view(),
    {
        let copy = ScanEntry {
            handle: self.handle,
            relative: self.relative.clone(),
            name: self.name.clone(),
            is_dir: self.is_dir,
        };
        copy
    }
}

/// A file that is being looked at.
#[derive(Debug)]
pub struct PendingFile {
    pub handle: usize,
    pub path: String,
    /// How large it is, once it was measured.
    pub bytes: Option<u64>,
}

/// A [`PendingFile`] as a mathematical value.
#[verifier::ext_equal]
pub struct PendingView {
    pub handle: usize,
    pub path: Seq<char>,
    pub bytes: Option<u64>,
}

impl DeepView for PendingFile {
    type V = PendingView;

    open spec fn deep_view(&self) -> PendingView {
        PendingView {
            handle: self.handle.deep_view(),
            path: self.path.deep_view(),
            bytes: self.bytes.deep_view(),
        }
    }
}

impl Clone for PendingFile {
    fn clone(&self) -> (copy: Self)
        ensures
            copy.deep_view() == self.deep_view(),
    {
        let copy = PendingFile {
            handle: self.handle,
            path: self.path.clone(),
            bytes: self.bytes,
        };
        copy
    }
}

/// What the host does next.
#[derive(Debug, Clone, Copy, PartialEq, Eq, Structural)]
pub enum ScanAction {
    /// List the directory, then tell of it with [`RepoScan::dir_listed`] or
    /// [`RepoScan::dir_unreadable`].
    ListDir { handle: usize },
    /// Get the size of the file, then tell of it with [`RepoScan::measured`] or
    /// [`RepoScan::metadata_unavailable`].
    ReadMetadata { handle: usize },
    /// Read the file and look for its parser, then tell of it with
    /// [`RepoScan::content_read`] or [`RepoScan::content_unreadable`].
    ReadContent { handle: usize },
    /// Go on with [`RepoScan::next`].
    Resume,
    /// The search is done: take what was found with [`RepoScan::finish`].
    Finish,
}

/// A search for files that can be parsed.
pub struct RepoScan {
    options: SemRepoScanOptions,
    skip_dirs: StringSet,
    queue: VecDeque<ScanDir>,
    entries: Vec<ScanEntry>,
    at: usize,
    depth: usize,
    names: Ghost<Seq<Seq<char>>>,
    listing: bool,
    pending: Option<PendingFile>,
    files: Vec<String>,
    sizes: Ghost<Seq<u64>>,
    places: Ghost<Seq<Seq<Seq<char>>>>,
    skipped: Vec<SemSkippedFile>,
    warnings: Vec<String>,
}

/// A [`RepoScan`] as a mathematical value.
#[verifier::ext_equal]
pub struct ScanView {
    pub options: ScanOptionsView,
    /// The directories that are still to be searched.
    pub queue: Seq<DirView>,
    /// What is left of the directory that is being searched.
    pub entries: Seq<EntryView>,
    /// How deep that directory lies.
    pub depth: usize,
    /// The names on the way to it, from the root down.
    pub names: Seq<Seq<char>>,
    /// Whether that directory is still to be listed.
    pub listing: bool,
    /// The file that is being looked at.
    pub pending: Option<PendingView>,
    /// The files that were found.
    pub files: Seq<Seq<char>>,
    /// How large each of them was.
    pub sizes: Seq<u64>,
    /// The names of the directories on the way to each of them.
    pub places: Seq<Seq<Seq<char>>>,
    /// The files that were left out, and why.
    pub skipped: Seq<SkippedView>,
    pub warnings: Seq<Seq<char>>,
}

impl DeepView for RepoScan {
    type V = ScanView;

    closed spec fn deep_view(&self) -> ScanView {
        ScanView {
            options: self.options.deep_view(),
            queue: self.queue.deep_view(),
            entries: self.entries.deep_view().skip(self.at as int),
            depth: self.depth,
            names: self.names@,
            listing: self.listing,
            pending: self.pending.deep_view(),
            files: self.files.deep_view(),
            sizes: self.sizes@,
            places: self.places@,
            skipped: self.skipped.deep_view(),
            warnings: self.warnings.deep_view(),
        }
    }
}

/// Whether a file may be taken: hidden ones are left out unless asked for.
pub open spec fn may_be_taken(options: ScanOptionsView, path: Seq<char>) -> bool {
    options.include_hidden || !has_hidden_segment(path)
}

/// Whether a directory may be queued, given the names on the way to it: none of
/// them is left out.
pub open spec fn may_be_queued(options: ScanOptionsView, names: Seq<Seq<char>>) -> bool {
    forall|i: int|
        0 <= i < names.len() ==> !is_left_out(
            #[trigger] names[i],
            options.include_hidden,
            skip_names(options),
        )
}

/// Whether a directory may be searched, given the names on the way to it: none
/// of them is left out, and it does not lie too deep.
pub open spec fn may_be_searched(options: ScanOptionsView, names: Seq<Seq<char>>) -> bool {
    names.len() <= options.max_depth && may_be_queued(options, names)
}

/// What holds of a search at any time: no more files are found than asked for,
/// none of them hidden unless asked for, none too large, and none below a
/// directory that lies too deep or is left out; a file is looked at only where it
/// may be taken, and read only if it is not too large; and no directory is
/// searched that lies too deep or is left out.
pub open spec fn scan_holds(scan: ScanView) -> bool {
    &&& scan.files.len() <= scan.options.max_files
    &&& scan.sizes.len() == scan.files.len()
    &&& scan.places.len() == scan.files.len()
    &&& forall|i: int|
        0 <= i < scan.files.len() ==> may_be_taken(scan.options, #[trigger] scan.files[i])
    &&& forall|i: int|
        0 <= i < scan.sizes.len() ==> #[trigger] scan.sizes[i] <= scan.options.max_file_bytes
    &&& forall|i: int|
        0 <= i < scan.places.len() ==> may_be_searched(scan.options, #[trigger] scan.places[i])
    &&& forall|i: int|
        0 <= i < scan.queue.len() ==> {
            &&& may_be_queued(scan.options, (#[trigger] scan.queue[i]).names)
            &&& scan.queue[i].names.len() == scan.queue[i].depth
        }
    &&& may_be_searched(scan.options, scan.names)
    &&& scan.names.len() == scan.depth
    &&& scan.pending matches Some(file) ==> {
        &&& scan.files.len() < scan.options.max_files
        &&& may_be_taken(scan.options, file.path)
        &&& file.bytes matches Some(bytes) ==> bytes <= scan.options.max_file_bytes
        &&& !scan.listing
    }
    &&& scan.listing ==> scan.entries.len() == 0
}

/// A search that begins at a root.
pub open spec fn scan_from(options: ScanOptionsView, root: usize) -> ScanView {
    ScanView {
        options,
        queue: seq![DirView { handle: root, depth: 0, names: Seq::empty() }],
        entries: Seq::empty(),
        depth: 0,
        names: Seq::empty(),
        listing: false,
        pending: None,
        files: Seq::empty(),
        sizes: Seq::empty(),
        places: Seq::empty(),
        skipped: Seq::empty(),
        warnings: Seq::empty(),
    }
}

/// A search with a file left out for a reason.
pub open spec fn leaving_out(scan: ScanView, path: Seq<char>, reason: Seq<char>) -> ScanView {
    ScanView { skipped: scan.skipped.push(SkippedView { path, reason }), pending: None, ..scan }
}

/// What becomes of an entry of the directory that is being searched: another
/// directory is queued unless left out; a file is looked at, if there is room
/// for it and it may be taken.
pub open spec fn after_entry(scan: ScanView, entry: EntryView) -> (ScanView, ScanAction) {
    match entry.relative {
        None => (scan, ScanAction::Resume),
        Some(path) => if entry.is_dir {
            if is_left_out(entry.name, scan.options.include_hidden, skip_names(scan.options)) {
                (scan, ScanAction::Resume)
            } else {
                (
                    ScanView {
                        queue: scan.queue.push(
                            DirView {
                                handle: entry.handle,
                                depth: (scan.depth + 1) as usize,
                                names: scan.names.push(entry.name),
                            },
                        ),
                        ..scan
                    },
                    ScanAction::Resume,
                )
            }
        } else if scan.files.len() >= scan.options.max_files {
            (leaving_out(scan, path, "max_files reached"@), ScanAction::Resume)
        } else if !may_be_taken(scan.options, path) {
            (scan, ScanAction::Resume)
        } else {
            (
                ScanView {
                    pending: Some(PendingView { handle: entry.handle, path, bytes: None }),
                    ..scan
                },
                ScanAction::ReadMetadata { handle: entry.handle },
            )
        },
    }
}

/// Whether there is an entry or a directory to go on with.
pub open spec fn has_work(scan: ScanView) -> bool {
    scan.entries.len() > 0 || scan.queue.len() > 0
}

/// Whether the host owes the search nothing: no directory is still to be listed,
/// and no file is being looked at.
pub open spec fn awaits_nothing(scan: ScanView) -> bool {
    !scan.listing && scan.pending is None
}

/// What comes next: the next entry of the directory that is being searched or,
/// at its end, the next directory, unless it lies too deep.
pub open spec fn next_step(scan: ScanView) -> (ScanView, ScanAction) {
    if scan.entries.len() > 0 {
        after_entry(
            ScanView { entries: scan.entries.drop_first(), ..scan },
            scan.entries[0],
        )
    } else if scan.queue.len() > 0 {
        let rest = ScanView { queue: scan.queue.drop_first(), ..scan };
        let dir = scan.queue[0];
        if dir.depth > scan.options.max_depth {
            (rest, ScanAction::Resume)
        } else {
            (
                ScanView { depth: dir.depth, names: dir.names, listing: true, ..rest },
                ScanAction::ListDir { handle: dir.handle },
            )
        }
    } else {
        (scan, ScanAction::Finish)
    }
}

/// What was found, sorted, under its key.
pub open spec fn discovered<H: Fn(&str) -> String>(
    hash: H,
    scan: ScanView,
    root: Seq<char>,
    options: OptionsView,
) -> DiscoveredView {
    DiscoveredView {
        api_version: SEM_EMBEDDED_API_VERSION@,
        cache_key: discovery_key(hash, root, scan.options, options, sorted_texts(scan.files)),
        files: sorted_texts(scan.files),
        skipped: scan.skipped,
        warnings: scan.warnings,
    }
}

/// Whether a parser is one that knows what it reads.
pub open spec fn is_semantic(parser: Option<Seq<char>>) -> bool {
    parser matches Some(id) && id != "fallback"@
}

/// A search with the file in question measured: it is to be read unless it is
/// too large.
pub open spec fn after_measuring(scan: ScanView, bytes: u64) -> (ScanView, ScanAction) {
    let file = scan.pending->0;
    if bytes > scan.options.max_file_bytes {
        (leaving_out(scan, file.path, "file too large"@), ScanAction::Resume)
    } else {
        (
            ScanView { pending: Some(PendingView { bytes: Some(bytes), ..file }), ..scan },
            ScanAction::ReadContent { handle: file.handle },
        )
    }
}

/// A search with the file in question read, and what is reported: it is found if
/// a parser knows what it reads.
pub open spec fn after_reading(scan: ScanView, parser: Option<Seq<char>>) -> (
    ScanView,
    Option<ProgressView>,
) {
    let file = scan.pending->0;
    if is_semantic(parser) {
        (
            ScanView {
                files: scan.files.push(file.path),
                sizes: scan.sizes.push(file.bytes->0),
                places: scan.places.push(scan.names),
                pending: None,
                ..scan
            },
            Some(
                ProgressView {
                    stage: "discover"@,
                    message: "Found semantic file"@,
                    completed: Some((scan.files.len() + 1) as usize),
                    total: Some(scan.options.max_files),
                },
            ),
        )
    } else {
        (leaving_out(scan, file.path, "no semantic parser"@), None)
    }
}

/// A search that could not list the directory in question.
pub open spec fn without_listing(scan: ScanView, dir: Seq<char>, error: Seq<char>) -> ScanView {
    ScanView {
        listing: false,
        warnings: scan.warnings.push("Could not read "@ + dir + ": "@ + error),
        ..scan
    }
}

impl RepoScan {
    /// The names that are left out are those of the options, and what holds of
    /// a search holds of this one.
    pub closed spec fn wf(&self) -> bool {
        &&& self.skip_dirs.wf()
        &&& self.skip_dirs@ == skip_names(self.options.deep_view())
        &&& self.at <= self.entries@.len()
        &&& scan_holds(self.deep_view())
    }

    /// At any time no more files are found than asked for, none of them hidden
    /// unless asked for, none too large, and none below a directory that lies too
    /// deep or is left out.
    pub proof fn law_search_keeps_its_bounds(&self)
        requires
            self.wf(),
        ensures
            scan_holds(self.deep_view()),
    {
    }

    /// Begins a search at a root.
    pub fn new(scan_options: &SemRepoScanOptions, root: usize) -> (scan: RepoScan)
        ensures
            scan.wf(),
            scan.deep_view() == scan_from(scan_options.deep_view(), root),
    {
        let mut queue: VecDeque<ScanDir> = VecDeque::new();
        queue.push_back(ScanDir { handle: root, depth: 0, names: Ghost(Seq::empty()) });
        let scan = RepoScan {
            options: scan_options.clone(),
            skip_dirs: scan_skip_dirs(scan_options),
            queue,
            entries: Vec::new(),
            at: 0,
            depth: 0,
            names: Ghost(Seq::empty()),
            listing: false,
            pending: None,
            files: Vec::new(),
            sizes: Ghost(Seq::empty()),
            places: Ghost(Seq::empty()),
            skipped: Vec::new(),
            warnings: Vec::new(),
        };
        assert(scan.deep_view() =~= scan_from(scan_options.deep_view(), root));
        scan
    }

    /// Whether an entry can still lie one level deeper than the directory that
    /// is being searched.
    pub fn can_go_deeper(&self) -> (can: bool)
        ensures
            can == (self.deep_view().depth < usize::MAX),
    {
        self.depth < usize::MAX
    }

    fn leave_out(&mut self, path: String, reason: String)
        requires
            old(self).wf(),
        ensures
            final(self).wf(),
            final(self).deep_view() == leaving_out(old(self).deep_view(), path@, reason@),
    {
        let ghost before = self.deep_view();
        self.pending = None;
        push_item(&mut self.skipped, SemSkippedFile { path, reason });
        assert(self.deep_view() =~= leaving_out(before, path@, reason@));
    }

    fn take_entry(&mut self, entry: ScanEntry) -> (action: ScanAction)
        requires
            old(self).wf(),
            awaits_nothing(old(self).deep_view()),
            old(self).deep_view().depth < usize::MAX,
        ensures
            final(self).wf(),
            (final(self).deep_view(), action) == after_entry(
                old(self).deep_view(),
                entry.deep_view(),
            ),
    {
        let ghost before = self.deep_view();
        match entry.relative {
            None => ScanAction::Resume,
            Some(path) => {
                if entry.is_dir {
                    if !should_skip_scan_dir(
                        entry.name.as_str(),
                        self.options.include_hidden,
                        &self.skip_dirs,
                    ) {
                        let ghost names = self.names@.push(entry.name@);
                        let dir = ScanDir {
                            handle: entry.handle,
                            depth: self.depth + 1,
                            names: Ghost(names),
                        };
                        self.queue.push_back(dir);
                        proof {
                            let after = self.deep_view();
                            assert(after.queue =~= before.queue.push(dir.deep_view()));
                            assert(may_be_queued(after.options, names));
                            assert forall|i: int| 0 <= i < after.queue.len() implies {
                                &&& may_be_queued(after.options, (#[trigger] after.queue[i]).names)
                                &&& after.queue[i].names.len() == after.queue[i].depth
                            } by {
                                if i < before.queue.len() {
                                    assert(after.queue[i] == before.queue[i]);
                                }
                            }
                        }
                    }
                    return ScanAction::Resume;
                }
                if self.files.len() >= self.options.max_files {
                    self.leave_out(path, "max_files reached".to_string());
                    return ScanAction::Resume;
                }
                if !self.options.include_hidden && path_has_hidden_component(path.as_str()) {
                    return ScanAction::Resume;
                }
                self.pending = Some(PendingFile { handle: entry.handle, path, bytes: None });
                ScanAction::ReadMetadata { handle: entry.handle }
            },
        }
    }

    /// Goes on with the next entry of the directory that is being searched or,
    /// at its end, with the next directory. Fails where there is something to
    /// go on with but the work is cancelled.
    pub fn next(&mut self, is_cancelled: bool) -> (outcome: SemResult<ScanAction>)
        requires
            old(self).wf(),
            awaits_nothing(old(self).deep_view()),
            old(self).deep_view().entries.len() > 0 ==> old(self).deep_view().depth < usize::MAX,
        ensures
            final(self).wf(),
            match outcome {
                Ok(action) => {
                    &&& !(is_cancelled && has_work(old(self).deep_view()))
                    &&& (final(self).deep_view(), action) == next_step(old(self).deep_view())
                },
                Err(error) => {
                    &&& is_cancelled && has_work(old(self).deep_view())
                    &&& error.deep_view() == cancelled()
                    &&& final(self).deep_view() == old(self).deep_view()
                },
            },
    {
        let ghost before = self.deep_view();
        if self.at < self.entries.len() {
            if let Err(error) = unless_cancelled(is_cancelled) {
                return Err(error);
            }
            let entry = self.entries[self.at].clone();
            proof {
                assert(before.entries[0] == self.entries@[self.at as int].deep_view());
            }
            self.at = self.at + 1;
            assert(self.deep_view() =~= (ScanView { entries: before.entries.drop_first(), ..before
            }));
            return Ok(self.take_entry(entry));
        }
        if self.queue.len() > 0 {
            if let Err(error) = unless_cancelled(is_cancelled) {
                return Err(error);
            }
        }
        if let Some(dir) = self.queue.pop_front() {
            proof {
                let after = self.deep_view();
                assert(before.queue[0] == dir.deep_view());
                assert(after.queue =~= before.queue.drop_first());
                assert forall|i: int| 0 <= i < after.queue.len() implies {
                    &&& may_be_queued(after.options, (#[trigger] after.queue[i]).names)
                    &&& after.queue[i].names.len() == after.queue[i].depth
                } by {
                    assert(after.queue[i] == before.queue[i + 1]);
                }
            }
            if dir.depth > self.options.max_depth {
                assert(self.deep_view() =~= next_step(before).0);
                return Ok(ScanAction::Resume);
            }
            self.depth = dir.depth;
            self.names = dir.names;
            self.listing = true;
            assert(self.deep_view() =~= next_step(before).0);
            return Ok(ScanAction::ListDir { handle: dir.handle });
        }
        Ok(ScanAction::Finish)
    }

    /// Tells what the directory holds that is being searched.
    pub fn dir_listed(&mut self, entries: Vec<ScanEntry>)
        requires
            old(self).wf(),
            old(self).deep_view().listing,
        ensures
            final(self).wf(),
            final(self).deep_view() == (ScanView {
                entries: entries.deep_view(),
                listing: false,
                ..old(self).deep_view()
            }),
    {
        let ghost before = self.deep_view();
        self.entries = entries;
        self.at = 0;
        self.listing = false;
        assert(self.deep_view() =~= (ScanView {
            entries: entries.deep_view(),
            listing: false,
            ..before
        }));
    }

    /// Notes that the directory that is being searched could not be read.
    pub fn dir_unreadable(&mut self, dir: &str, error: &str)
        requires
            old(self).wf(),
            old(self).deep_view().listing,
        ensures
            final(self).wf(),
            final(self).deep_view() == (ScanView {
                listing: false,
                warnings: old(self).deep_view().warnings.push(
                    "Could not read "@ + dir@ + ": "@ + error@,
                ),
                ..old(self).deep_view()
            }),
            final(self).deep_view() == without_listing(old(self).deep_view(), dir@, error@),
    {
        let ghost before = self.deep_view();
        let mut warning = "Could not read ".to_string();
        warning.append(dir);
        warning.append(": ");
        warning.append(error);
        push_item(&mut self.warnings, warning);
        self.listing = false;
        assert(self.deep_view() =~= (ScanView {
            listing: false,
            warnings: self.deep_view().warnings,
            ..before
        }));
    }

    /// Notes that the file in question could not be measured.
    pub fn metadata_unavailable(&mut self, error: &str)
        requires
            old(self).wf(),
            old(self).deep_view().pending matches Some(file) && file.bytes is None,
        ensures
            final(self).wf(),
            final(self).deep_view() == leaving_out(
                old(self).deep_view(),
                old(self).deep_view().pending->0.path,
                "metadata unavailable: "@ + error@,
            ),
    {
        let mut reason = "metadata unavailable: ".to_string();
        reason.append(error);
        if let Some(file) = &self.pending {
            let path = file.path.clone();
            self.leave_out(path, reason);
        }
    }

    /// Tells how large the file in question is. It is read unless it is too
    /// large.
    pub fn measured(&mut self, bytes: u64) -> (action: ScanAction)
        requires
            old(self).wf(),
            old(self).deep_view().pending matches Some(file) && file.bytes is None,
        ensures
            final(self).wf(),
            (final(self).deep_view(), action) == if bytes
                > old(self).deep_view().options.max_file_bytes {
                (
                    leaving_out(
                        old(self).deep_view(),
                        old(self).deep_view().pending->0.path,
                        "file too large"@,
                    ),
                    ScanAction::Resume,
                )
            } else {
                (
                    ScanView {
                        pending: Some(
                            PendingView {
                                bytes: Some(bytes),
                                ..old(self).deep_view().pending->0
                            },
                        ),
                        ..old(self).deep_view()
                    },
                    ScanAction::ReadContent { handle: old(self).deep_view().pending->0.handle },
                )
            },
            (final(self).deep_view(), action) == after_measuring(old(self).deep_view(), bytes),
    {
        match &self.pending {
            Some(file) => {
                let path = file.path.clone();
                let handle: usize = file.handle;
                if bytes > self.options.max_file_bytes {
                    self.leave_out(path, "file too large".to_string());
                    ScanAction::Resume
                } else {
                    self.pending = Some(PendingFile { handle, path, bytes: Some(bytes) });
                    ScanAction::ReadContent { handle }
                }
            },
            None => ScanAction::Resume,
        }
    }

    /// Notes that the file in question is not text.
    pub fn content_unreadable(&mut self)
        requires
            old(self).wf(),
            old(self).deep_view().pending matches Some(file) && file.bytes is Some,
        ensures
            final(self).wf(),
            final(self).deep_view() == leaving_out(
                old(self).deep_view(),
                old(self).deep_view().pending->0.path,
                "not utf-8 text"@,
            ),
    {
        if let Some(file) = &self.pending {
            let path = file.path.clone();
            self.leave_out(path, "not utf-8 text".to_string());
        }
    }

    /// Tells which parser reads the file in question, if any does. It is found
    /// if a parser knows what it reads, and what is then reported is returned.
    pub fn content_read(&mut self, parser: Option<&str>) -> (event: Option<SemProgressEvent>)
        requires
            old(self).wf(),
            old(self).deep_view().pending matches Some(file) && file.bytes is Some,
        ensures
            final(self).wf(),
            !is_semantic(parser.deep_view()) ==> {
                &&& final(self).deep_view() == leaving_out(
                    old(self).deep_view(),
                    old(self).deep_view().pending->0.path,
                    "no semantic parser"@,
                )
                &&& event is None
            },
            is_semantic(parser.deep_view()) ==> {
                &&& final(self).deep_view() == (ScanView {
                    files: old(self).deep_view().files.push(
                        old(self).deep_view().pending->0.path,
                    ),
                    sizes: old(self).deep_view().sizes.push(
                        old(self).deep_view().pending->0.bytes->0,
                    ),
                    places: old(self).deep_view().places.push(old(self).deep_view().names),
                    pending: None,
                    ..old(self).deep_view()
                })
                &&& event.deep_view() == Some(
                    ProgressView {
                        stage: "discover"@,
                        message: "Found semantic file"@,
                        completed: Some((old(self).deep_view().files.len() + 1) as usize),
                        total: Some(old(self).deep_view().options.max_files),
                    },
                )
            },
            (final(self).deep_view(), event.deep_view()) == after_reading(
                old(self).deep_view(),
                parser.deep_view(),
            ),
    {
        let ghost before = self.deep_view();
        let semantic = match parser {
            Some(id) => !same_text(id, "fallback"),
            None => false,
        };
        match &self.pending {
            Some(file) => {
                let path = file.path.clone();
                if !semantic {
                    self.leave_out(path, "no semantic parser".to_string());
                    return None;
                }
                let ghost bytes = file.bytes->0;
                self.pending = None;
                push_item(&mut self.files, path);
                self.sizes = Ghost(self.sizes@.push(bytes));
                self.places = Ghost(self.places@.push(self.names@));
                proof {
                    let after = self.deep_view();
                    assert(after =~= (ScanView {
                        files: before.files.push(path@),
                        sizes: before.sizes.push(bytes),
                        places: before.places.push(before.names),
                        pending: None,
                        ..before
                    }));
                    assert forall|i: int| 0 <= i < after.files.len() implies may_be_taken(
                        after.options,
                        #[trigger] after.files[i],
                    ) by {
                        if i < before.files.len() {
                            assert(after.files[i] == before.files[i]);
                        }
                    }
                    assert forall|i: int| 0 <= i < after.sizes.len() implies #[trigger] after.sizes[i]
                        <= after.options.max_file_bytes by {
                        if i < before.sizes.len() {
                            assert(after.sizes[i] == before.sizes[i]);
                        }
                    }
                    assert forall|i: int| 0 <= i < after.places.len() implies may_be_searched(
                        after.options,
                        #[trigger] after.places[i],
                    ) by {
                        if i < before.places.len() {
                            assert(after.places[i] == before.places[i]);
                        }
                    }
                }
                Some(
                    progress_event(
                        "discover",
                        "Found semantic file",
                        Some(self.files.len()),
                        Some(self.options.max_files),
                    ),
                )
            },
            None => None,
        }
    }

    /// Takes what was found, once nothing is left to search.
    pub fn finish<H: Fn(&str) -> String>(
        self,
        root: &str,
        options: &SemEmbeddedOptions,
        hash: &H,
    ) -> (found: SemDiscoveredFiles)
        requires
            self.wf(),
            !has_work(self.deep_view()),
            awaits_nothing(self.deep_view()),
            is_content_hash(*hash),
        ensures
            found.deep_view() == discovered(*hash, self.deep_view(), root@, options.deep_view()),
    {
        let files = sorted_strings(slice_of(&self.files));
        SemDiscoveredFiles {
            api_version: SEM_EMBEDDED_API_VERSION.to_string(),
            cache_key: discovery_cache_key(
                root,
                &self.options,
                options,
                slice_of(&files),
                hash,
            ),
            files,
            skipped: self.skipped,
            warnings: self.warnings,
        }
    }
}

/// The error of a root that is no directory.
pub open spec fn not_a_directory(root: Seq<char>) -> ErrorView {
    ErrorView {
        kind: SemErrorKind::InvalidInput,
        message: "root is not a directory: "@ + root,
    }
}

/// What is reported when a search begins.
pub open spec fn scan_started(root: Seq<char>) -> ProgressView {
    ProgressView {
        stage: "discover"@,
        message: "Scanning "@ + root,
        completed: Some(0),
        total: None,
    }
}

/// What is reported when a search begins.
pub fn scan_started_event(root: &str) -> (event: SemProgressEvent)
    ensures
        event.deep_view() == scan_started(root@),
{
    let mut message = "Scanning ".to_string();
    message.append(root);
    progress_event("discover", message.as_str(), Some(0), None)
}

/// Begins a search at a root, given what the token said: the root is looked at
/// only if the work goes on.
pub fn begin_scan_unless(
    is_cancelled: bool,
    root: &str,
    root_handle: usize,
    root_is_dir: bool,
    scan_options: &SemRepoScanOptions,
) -> (outcome: SemResult<RepoScan>)
    ensures
        match outcome {
            Ok(scan) => {
                &&& !is_cancelled && root_is_dir
                &&& scan.wf()
                &&& scan.deep_view() == scan_from(scan_options.deep_view(), root_handle)
            },
            Err(error) => if is_cancelled {
                error.deep_view() == cancelled()
            } else {
                !root_is_dir && error.deep_view() == not_a_directory(root@)
            },
        },
{
    if let Err(error) = unless_cancelled(is_cancelled) {
        return Err(error);
    }
    if !root_is_dir {
        let mut message = "root is not a directory: ".to_string();
        message.append(root);
        return Err(failure(SemErrorKind::InvalidInput, message));
    }
    Ok(RepoScan::new(scan_options, root_handle))
}

/// Begins a search at a root. Fails if the work is cancelled, or the root is no
/// directory.
pub fn begin_scan(
    root: &str,
    root_handle: usize,
    root_is_dir: bool,
    scan_options: &SemRepoScanOptions,
    execution: &SemExecutionContext<'_>,
) -> (outcome: SemResult<RepoScan>)
    ensures
        match outcome {
            Ok(scan) => {
                &&& may_be_told(execution, false)
                &&& is_reported(execution, scan_started(root@))
                &&& root_is_dir
                &&& scan.wf()
                &&& scan.deep_view() == scan_from(scan_options.deep_view(), root_handle)
            },
            Err(error) => {
                ||| may_be_told(execution, false) && !root_is_dir && error.deep_view()
                    == not_a_directory(root@)
                ||| may_be_told(execution, true) && error.deep_view() == cancelled()
            },
        },
{
    match begin_scan_unless(
        is_cancelled(execution),
        root,
        root_handle,
        root_is_dir,
        scan_options,
    ) {
        Ok(scan) => {
            report_progress(execution, scan_started_event(root));
            Ok(scan)
        },
        Err(error) => Err(error),
    }
}

// ---------------------------------------------------------------------------
// Laws

/// A directory is listed only if it does not lie too deep.
pub proof fn law_deep_directories_are_not_listed(scan: ScanView)
    ensures
        next_step(scan).1 is ListDir ==> scan.queue.len() > 0 && scan.queue[0].depth
            <= scan.options.max_depth,
{
}

/// A directory that is left out is not queued, and every other one lies one
/// level deeper than the directory that it is in.
pub proof fn law_left_out_directories_are_not_queued(scan: ScanView)
    requires
        scan.entries.len() > 0,
    ensures
        ({
            let entry = scan.entries[0];
            let after = next_step(scan).0;
            ||| after.queue == scan.queue
            ||| entry.is_dir && !is_left_out(
                entry.name,
                scan.options.include_hidden,
                skip_names(scan.options),
            ) && after.queue == scan.queue.push(
                DirView {
                    handle: entry.handle,
                    depth: (scan.depth + 1) as usize,
                    names: scan.names.push(entry.name),
                },
            )
        }),
{
}

/// Whether a file was found with a size that is not too large, in a directory
/// that may be searched.
pub open spec fn was_found_within_bounds(scan: ScanView, path: Seq<char>) -> bool {
    exists|k: int|
        {
            &&& 0 <= k < scan.files.len()
            &&& #[trigger] scan.files[k] == path
            &&& scan.sizes[k] <= scan.options.max_file_bytes
            &&& may_be_searched(scan.options, scan.places[k])
        }
}

/// What a search gives is what was found in it: sorted, nothing added, nothing
/// lost, no more than asked for, nothing hidden unless asked for, nothing too
/// large, and nothing below a directory that lies too deep or is left out.
pub proof fn law_what_is_found_is_given<H: Fn(&str) -> String>(
    hash: H,
    scan: ScanView,
    root: Seq<char>,
    options: OptionsView,
)
    requires
        scan_holds(scan),
    ensures
        ({
            let files = discovered(hash, scan, root, options).files;
            &&& in_order(files, key_fn::<String>())
            &&& files.to_multiset() == scan.files.to_multiset()
            &&& files.len() <= scan.options.max_files
            &&& forall|i: int|
                0 <= i < files.len() ==> may_be_taken(scan.options, #[trigger] files[i])
                    && was_found_within_bounds(scan, files[i])
        }),
{
    broadcast use vstd::seq_lib::group_to_multiset_ensures;

    let files = sorted_texts(scan.files);
    lemma_sorted_by(scan.files, key_fn::<String>());
    assert forall|i: int| 0 <= i < files.len() implies may_be_taken(
        scan.options,
        #[trigger] files[i],
    ) && was_found_within_bounds(scan, files[i]) by {
        assert(files.to_multiset().contains(files[i]));
        assert(scan.files.contains(files[i]));
        let k = choose|k: int| 0 <= k < scan.files.len() && scan.files[k] == files[i];
        assert(may_be_taken(scan.options, scan.files[k]));
        assert(scan.sizes[k] <= scan.options.max_file_bytes);
        assert(may_be_searched(scan.options, scan.places[k]));
    }
}

} // verus!
