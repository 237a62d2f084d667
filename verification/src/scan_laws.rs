//! What every search does, step by step.

use vstd::prelude::*;

use crate::order::lemma_sorted_texts;
use crate::path_laws::{is_hidden, law_hidden_paths_have_a_dotted_segment};
use crate::scan::{
    after_measuring, after_reading, discovered, has_work, is_left_out, is_semantic, leaving_out,
    next_step, scan_from, skip_names, usual_skip_dirs, without_listing, EntryView, ScanAction,
    ScanView,
};
use crate::text::text_before;
use crate::types::{OptionsView, ScanOptionsView};

verus! {

/// Whether directories with a name are never searched.
pub open spec fn is_never_searched(name: Seq<char>) -> bool {
    ||| name == ".git"@
    ||| name == ".sem"@
    ||| name == "node_modules"@
    ||| name == "target"@
    ||| name == "dist"@
    ||| name == "build"@
    ||| name == "coverage"@
    ||| name == ".next"@
    ||| name == ".turbo"@
    ||| name == ".venv"@
    ||| name == "vendor"@
}

/// Whether a search passes over directories with a name: always, because the
/// host said so, or because they are hidden and hidden ones are not wanted.
pub open spec fn is_passed_over(options: ScanOptionsView, name: Seq<char>) -> bool {
    ||| is_never_searched(name)
    ||| exists|k: int|
        0 <= k < options.extra_skip_dirs.len() && #[trigger] options.extra_skip_dirs[k] == name
    ||| !options.include_hidden && name.len() > 0 && name[0] == '.'
}

/// Which directories a search passes over.
pub proof fn law_some_directories_are_passed_over(options: ScanOptionsView, name: Seq<char>)
    ensures
        is_left_out(name, options.include_hidden, skip_names(options)) == is_passed_over(
            options,
            name,
        ),
{
    let usual = usual_skip_dirs();
    if usual.contains(name) {
        let k = choose|k: int| 0 <= k < usual.len() && usual[k] == name;
        assert(0 <= k < 11);
        assert(is_never_searched(name));
    }
    if is_never_searched(name) {
        assert(usual[0] == ".git"@ && usual[1] == ".sem"@ && usual[2] == "node_modules"@);
        assert(usual[3] == "target"@ && usual[4] == "dist"@ && usual[5] == "build"@);
        assert(usual[6] == "coverage"@ && usual[7] == ".next"@ && usual[8] == ".turbo"@);
        assert(usual[9] == ".venv"@ && usual[10] == "vendor"@);
        assert(usual.contains(name));
    }
    let extra = options.extra_skip_dirs;
    if extra.contains(name) {
        let k = choose|k: int| 0 <= k < extra.len() && extra[k] == name;
        assert(extra[k] == name);
    }
}

/// Whether a search found and noted nothing between two moments.
pub open spec fn found_nothing(before: ScanView, after: ScanView) -> bool {
    &&& after.files == before.files
    &&& after.skipped == before.skipped
    &&& after.warnings == before.warnings
    &&& after.pending == before.pending
    &&& after.options == before.options
}

/// A step goes on with the next entry of the directory that is being searched.
/// What is not below the root is passed over, and so are the directories that
/// are to be; any other one is queued behind those that are queued already, one
/// level deeper. A file is noted as left out if there is no room for it, passed
/// over if it is hidden and hidden ones are not wanted, and otherwise looked at.
pub proof fn law_each_entry_is_queued_looked_at_or_passed_over(scan: ScanView, entry: EntryView)
    requires
        scan.entries.len() > 0,
        scan.entries[0] == entry,
        scan.pending is None,
        scan.depth < usize::MAX,
    ensures
        ({
            let (after, action) = next_step(scan);
            let fits = scan.files.len() < scan.options.max_files;
            let shown = scan.options.include_hidden || !is_hidden(entry.relative->0);
            &&& after.entries == scan.entries.drop_first()
            &&& after.depth == scan.depth
            &&& match entry.relative {
                None => found_nothing(scan, after) && after.queue == scan.queue
                    && action == ScanAction::Resume,
                Some(path) => if entry.is_dir {
                    &&& found_nothing(scan, after)
                    &&& action == ScanAction::Resume
                    &&& is_passed_over(scan.options, entry.name) ==> after.queue == scan.queue
                    &&& !is_passed_over(scan.options, entry.name) ==> {
                        &&& after.queue.len() == scan.queue.len() + 1
                        &&& after.queue.drop_last() == scan.queue
                        &&& after.queue.last().handle == entry.handle
                        &&& after.queue.last().depth == scan.depth + 1
                    }
                } else {
                    &&& after.queue == scan.queue
                    &&& after.files == scan.files
                    &&& after.warnings == scan.warnings
                    &&& !fits ==> {
                        &&& action == ScanAction::Resume
                        &&& after.pending is None
                        &&& after.skipped.len() == scan.skipped.len() + 1
                        &&& after.skipped.drop_last() == scan.skipped
                        &&& after.skipped.last().path == path
                        &&& after.skipped.last().reason == "max_files reached"@
                    }
                    &&& fits && !shown ==> action == ScanAction::Resume && found_nothing(
                        scan,
                        after,
                    )
                    &&& fits && shown ==> {
                        &&& action == ScanAction::ReadMetadata { handle: entry.handle }
                        &&& after.skipped == scan.skipped
                        &&& after.pending matches Some(file) && file.handle == entry.handle
                            && file.path == path && file.bytes is None
                    }
                },
            }
        }),
{
    law_some_directories_are_passed_over(scan.options, entry.name);
    if let Some(path) = entry.relative {
        law_hidden_paths_have_a_dotted_segment(path);
    }
    let after = next_step(scan).0;
    assert(after.queue.len() > scan.queue.len() ==> after.queue.drop_last() =~= scan.queue);
    assert(after.skipped.len() > scan.skipped.len() ==> after.skipped.drop_last()
        =~= scan.skipped);
}

/// At the end of a directory the search goes on with the one that was queued
/// first: it is listed unless it lies deeper than asked for. With none left the
/// search is done, and nothing changes any more.
pub proof fn law_directories_are_searched_in_the_order_of_the_queue(scan: ScanView)
    requires
        scan.entries.len() == 0,
    ensures
        ({
            let (after, action) = next_step(scan);
            &&& found_nothing(scan, after)
            &&& action == ScanAction::Finish <==> scan.queue.len() == 0
            &&& scan.queue.len() == 0 ==> after == scan && !has_work(scan)
            &&& scan.queue.len() > 0 ==> {
                let dir = scan.queue[0];
                &&& has_work(scan)
                &&& after.queue == scan.queue.drop_first()
                &&& after.entries.len() == 0
                &&& if dir.depth <= scan.options.max_depth {
                    action == ScanAction::ListDir { handle: dir.handle } && after.depth == dir.depth
                        && after.listing
                } else {
                    action == ScanAction::Resume && after.listing == scan.listing && after.depth
                        == scan.depth
                }
            }
        }),
{
}

/// A search begins at the root alone, with nothing found.
pub proof fn law_a_search_begins_at_the_root(options: ScanOptionsView, root: usize)
    ensures
        ({
            let scan = scan_from(options, root);
            &&& next_step(scan).1 == ScanAction::ListDir { handle: root }
            &&& next_step(scan).0.depth == 0
            &&& scan.queue.len() == 1
            &&& scan.files.len() == 0 && scan.skipped.len() == 0 && scan.warnings.len() == 0
            &&& scan.options == options
        }),
{
}

/// A file that is left out is noted with the reason behind those that were
/// before, is looked at no longer, and nothing else changes.
pub proof fn law_files_left_out_are_noted(scan: ScanView, path: Seq<char>, reason: Seq<char>)
    ensures
        ({
            let after = leaving_out(scan, path, reason);
            &&& after.skipped.len() == scan.skipped.len() + 1
            &&& after.skipped.drop_last() == scan.skipped
            &&& after.skipped.last().path == path
            &&& after.skipped.last().reason == reason
            &&& after.pending is None
            &&& after == ScanView { skipped: after.skipped, pending: None, ..scan }
        }),
{
    assert(leaving_out(scan, path, reason).skipped.drop_last() =~= scan.skipped);
}

/// A file is read just if it has no more bytes than asked for; otherwise it is
/// noted as too large. Either way nothing is found yet.
pub proof fn law_files_are_read_unless_too_large(scan: ScanView, bytes: u64)
    requires
        scan.pending is Some,
    ensures
        ({
            let (after, action) = after_measuring(scan, bytes);
            let file = scan.pending->0;
            &&& action is ReadContent <==> bytes <= scan.options.max_file_bytes
            &&& action matches ScanAction::ReadContent { handle } ==> {
                &&& handle == file.handle
                &&& after.skipped == scan.skipped
                &&& after.pending matches Some(now) && now.path == file.path && now.handle
                    == file.handle && now.bytes == Some(bytes)
            }
            &&& action !is ReadContent ==> {
                &&& action == ScanAction::Resume
                &&& after.pending is None
                &&& after.skipped.len() == scan.skipped.len() + 1
                &&& after.skipped.last().path == file.path
                &&& after.skipped.last().reason == "file too large"@
            }
            &&& after.files == scan.files
            &&& after.queue == scan.queue
            &&& after.entries == scan.entries
            &&& after.warnings == scan.warnings
        }),
{
}

/// A file is found just if a parser other than the fallback reads it: it stands
/// behind those that were found before, and how many there are now, of how many
/// asked for, is reported. Otherwise it is noted that it has no parser, and
/// nothing is reported.
pub proof fn law_files_are_found_if_a_parser_knows_them(
    scan: ScanView,
    parser: Option<Seq<char>>,
)
    requires
        scan.pending is Some,
        scan.files.len() < usize::MAX,
    ensures
        ({
            let (after, event) = after_reading(scan, parser);
            let path = scan.pending->0.path;
            let known = parser is Some && parser->0 != "fallback"@;
            &&& after.pending is None
            &&& known ==> {
                &&& after.files.len() == scan.files.len() + 1
                &&& after.files.drop_last() == scan.files
                &&& after.files.last() == path
                &&& after.skipped == scan.skipped
                &&& event matches Some(event) && event.stage == "discover"@ && event.message
                    == "Found semantic file"@ && event.completed == Some(
                    after.files.len() as usize,
                ) && event.total == Some(scan.options.max_files)
            }
            &&& !known ==> {
                &&& after.files == scan.files
                &&& after.skipped.len() == scan.skipped.len() + 1
                &&& after.skipped.last().path == path
                &&& after.skipped.last().reason == "no semantic parser"@
                &&& event is None
            }
            &&& after.queue == scan.queue
            &&& after.entries == scan.entries
            &&& after.warnings == scan.warnings
        }),
{
    assert(after_reading(scan, parser).0.files.len() > scan.files.len() ==> after_reading(
        scan,
        parser,
    ).0.files.drop_last() =~= scan.files);
}

/// A directory that cannot be listed is warned of by its name and what went
/// wrong, and the search goes on without it.
pub proof fn law_directories_that_cannot_be_listed_are_warned_of(
    scan: ScanView,
    dir: Seq<char>,
    error: Seq<char>,
)
    ensures
        ({
            let after = without_listing(scan, dir, error);
            &&& !after.listing
            &&& after.warnings.len() == scan.warnings.len() + 1
            &&& after.warnings.drop_last() == scan.warnings
            &&& after.warnings.last() == "Could not read "@ + dir + ": "@ + error
            &&& after.files == scan.files && after.skipped == scan.skipped
            &&& after.queue == scan.queue && after.entries == scan.entries
        }),
{
    assert(without_listing(scan, dir, error).warnings.drop_last() =~= scan.warnings);
}

/// Only a parser other than the fallback makes a file one that is found.
pub proof fn law_the_fallback_knows_nothing(parser: Option<Seq<char>>)
    ensures
        is_semantic(parser) <==> parser is Some && parser->0 != "fallback"@,
{
}

/// What a search gives are the files that were found, each as often as it was, in
/// order, with the files that were left out and the warnings as they came.
pub proof fn law_a_search_gives_its_files_in_order<H: Fn(&str) -> String>(
    hash: H,
    scan: ScanView,
    root: Seq<char>,
    options: OptionsView,
)
    ensures
        ({
            let found = discovered(hash, scan, root, options);
            &&& found.api_version == "sem-embedded-v1"@
            &&& found.files.to_multiset() == scan.files.to_multiset()
            &&& forall|i: int, j: int|
                0 <= i < j < found.files.len() ==> {
                    let a = #[trigger] found.files[i];
                    let b = #[trigger] found.files[j];
                    a == b || text_before(a, b)
                }
            &&& found.skipped == scan.skipped
            &&& found.warnings == scan.warnings
        }),
{
    lemma_sorted_texts(scan.files);
}

} // verus!
