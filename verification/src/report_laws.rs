//! What is said of errors and of progress, and what is stored of graphs.

use vstd::prelude::*;

use crate::collections::{ascending, lemma_listed, lemma_listed_exists, listed};
use crate::execution::{cancelled, error_text};
use crate::graph::{
    by_ids, graph_ready, graph_started, infos_of, record_of, snapshot_of, unsupported_record,
};
use crate::keys::memory_graph_key;
use crate::memory::{graph_dir_name, overlay_written};
use crate::model::{EntityInfo, InfoView};
use crate::order::{key_before, key_fn, lemma_sorted_by};
use crate::scan::{not_a_directory, scan_started};
use crate::text::{
    decimal, lemma_decimal_digits, lemma_decimal_injective, lemma_text_before_asymmetric, text_before,
};
use crate::types::{
    ErrorView, FileInputView, OptionsView, RecordView, SemErrorKind, SnapshotView,
};

verus! {

// ---------------------------------------------------------------------------
// Errors

/// An error in words begins with those of its kind, ends with its message, and
/// has a colon and a space between.
pub proof fn law_errors_tell_their_kind_and_message(error: ErrorView)
    ensures
        ({
            let text = error_text(error);
            let message = error.message;
            match error.kind {
                SemErrorKind::Cancelled => text == "cancelled: "@ + message,
                SemErrorKind::InvalidInput => text == "invalid input: "@ + message,
                SemErrorKind::Io => text == "io: "@ + message,
                SemErrorKind::NotFound => text == "not found: "@ + message,
                SemErrorKind::AmbiguousTarget => text == "ambiguous target: "@ + message,
                SemErrorKind::Unsupported => text == "unsupported: "@ + message,
                SemErrorKind::Internal => text == "internal: "@ + message,
            }
        }),
{
    reveal_strlit(": ");
    reveal_strlit("cancelled");
    reveal_strlit("cancelled: ");
    reveal_strlit("invalid input");
    reveal_strlit("invalid input: ");
    reveal_strlit("io");
    reveal_strlit("io: ");
    reveal_strlit("not found");
    reveal_strlit("not found: ");
    reveal_strlit("ambiguous target");
    reveal_strlit("ambiguous target: ");
    reveal_strlit("unsupported");
    reveal_strlit("unsupported: ");
    reveal_strlit("internal");
    reveal_strlit("internal: ");
    match error.kind {
        SemErrorKind::Cancelled => assert("cancelled: "@ =~= "cancelled"@ + ": "@),
        SemErrorKind::InvalidInput => assert("invalid input: "@ =~= "invalid input"@ + ": "@),
        SemErrorKind::Io => assert("io: "@ =~= "io"@ + ": "@),
        SemErrorKind::NotFound => assert("not found: "@ =~= "not found"@ + ": "@),
        SemErrorKind::AmbiguousTarget => assert("ambiguous target: "@ =~= "ambiguous target"@
            + ": "@),
        SemErrorKind::Unsupported => assert("unsupported: "@ =~= "unsupported"@ + ": "@),
        SemErrorKind::Internal => assert("internal: "@ =~= "internal"@ + ": "@),
    }
}

/// What is wrong is told with what it is wrong of: a root that is no directory, a
/// record of another version. Cancelled work says so and nothing else.
pub proof fn law_errors_name_what_is_wrong(root: Seq<char>, version: Seq<char>)
    ensures
        cancelled().kind == SemErrorKind::Cancelled,
        cancelled().message == "operation cancelled"@,
        not_a_directory(root).kind == SemErrorKind::InvalidInput,
        not_a_directory(root).message == "root is not a directory: "@ + root,
        unsupported_record(version).kind == SemErrorKind::InvalidInput,
        unsupported_record(version).message == "unsupported graph cache api version: "@ + version,
{
}

// ---------------------------------------------------------------------------
// Progress

/// Work that begins has completed nothing, work that is done has completed all,
/// and work in between as much as it has. How much there is to do is told where
/// it is known.
pub proof fn law_progress_tells_how_far_work_has_come(
    root: Seq<char>,
    files: usize,
    written: usize,
)
    ensures
        scan_started(root).stage == "discover"@,
        scan_started(root).message == "Scanning "@ + root,
        scan_started(root).completed == Some(0usize),
        scan_started(root).total is None,
        graph_started(files).stage == "graph"@,
        graph_started(files).message == "Building semantic graph for "@ + decimal(files as nat)
            + " files"@,
        graph_started(files).completed == Some(0usize),
        graph_started(files).total == Some(files),
        graph_ready(files).stage == "graph"@,
        graph_ready(files).message == "Semantic graph ready"@,
        graph_ready(files).completed == Some(files),
        graph_ready(files).total == Some(files),
        overlay_written(written, files).stage == "graphOverlay"@,
        overlay_written(written, files).message == "Wrote in-memory graph overlay"@,
        overlay_written(written, files).completed == Some(written),
        overlay_written(written, files).total == Some(files),
{
}

// ---------------------------------------------------------------------------
// Directories of memory graphs

/// Two processes never build a memory graph in the same directory, and one
/// process builds different graphs in different ones.
pub proof fn law_memory_graphs_have_directories_of_their_own<H: Fn(&str) -> String>(
    hash: H,
    files: Seq<FileInputView>,
    options: OptionsView,
    process: u32,
    others: Seq<FileInputView>,
    other_options: OptionsView,
    other_process: u32,
)
    requires
        graph_dir_name(hash, files, options, process) == graph_dir_name(
            hash,
            others,
            other_options,
            other_process,
        ),
    ensures
        process == other_process,
        memory_graph_key(hash, files, options) == memory_graph_key(hash, others, other_options),
{
    reveal_strlit("sem-embedded-");
    reveal_strlit("-");
    let start = "sem-embedded-"@;
    let x = graph_dir_name(hash, files, options, process);
    let a = decimal(process as nat);
    let b = decimal(other_process as nat);
    let n = start.len() + a.len();
    let m = start.len() + b.len();
    lemma_decimal_digits(process as nat);
    lemma_decimal_digits(other_process as nat);
    assert(x[n as int] == '-');
    assert(x[m as int] == '-');
    if n < m {
        assert(x[n as int] == b[n - start.len()]);
    } else if m < n {
        assert(x[m as int] == a[m - start.len()]);
    }
    assert(a =~= x.subrange(start.len() as int, n as int));
    assert(b =~= x.subrange(start.len() as int, m as int));
    lemma_decimal_injective(process as nat, other_process as nat);
    assert(memory_graph_key(hash, files, options) =~= x.skip(n as int + 1));
    assert(memory_graph_key(hash, others, other_options) =~= x.skip(m as int + 1));
}

// ---------------------------------------------------------------------------
// Stored graphs

/// A record holds all that a snapshot does, and its entities of the graph in the
/// order of their ids: each of them, and as many as there are.
pub proof fn law_a_record_lists_the_graph_by_id(snapshot: SnapshotView, key: Seq<char>)
    requires
        snapshot.graph.entities.dom().finite(),
    ensures
        ({
            let record = record_of(snapshot);
            let infos = record.entity_infos;
            &&& infos.len() == snapshot.graph.entities.dom().len()
            &&& snapshot.graph.entities.contains_key(key) ==> infos.contains(
                snapshot.graph.entities[key],
            )
            &&& forall|i: int, j: int|
                0 <= i < j < infos.len() ==> !text_before(
                    (#[trigger] infos[j]).id,
                    (#[trigger] infos[i]).id,
                )
            &&& record.api_version == snapshot.api_version
            &&& record.cache_key == snapshot.cache_key
            &&& record.file_paths == snapshot.file_paths
            &&& record.entities == snapshot.entities
            &&& record.edges == snapshot.graph.edges
            &&& record.warnings == snapshot.warnings
        }),
{
    broadcast use vstd::seq_lib::group_to_multiset_ensures;

    let graph = snapshot.graph;
    let plain = infos_of(graph);
    let infos = record_of(snapshot).entity_infos;
    let names = listed(graph.entities.dom());
    let order = key_fn::<EntityInfo>();
    lemma_listed_exists(graph.entities.dom());
    lemma_listed(names);
    lemma_sorted_by(plain, order);
    assert(infos.to_multiset().len() == infos.len());
    assert(plain.to_multiset().len() == plain.len());
    lemma_names_are_counted(names);
    if graph.entities.contains_key(key) {
        assert(names.to_set().contains(key));
        let k = choose|k: int| 0 <= k < names.len() && names[k] == key;
        assert(plain[k] == graph.entities[key]);
        assert(plain.to_multiset().contains(plain[k]));
        assert(infos.to_multiset().contains(plain[k]));
    }
    assert forall|i: int, j: int| 0 <= i < j < infos.len() implies !text_before(
        (#[trigger] infos[j]).id,
        (#[trigger] infos[i]).id,
    ) by {
        assert(!key_before(order(infos[j]), order(infos[i])));
    }
}

proof fn lemma_names_are_counted(names: Seq<Seq<char>>)
    requires
        ascending(names),
    ensures
        names.to_set().len() == names.len(),
{
    assert forall|i: int, j: int| 0 <= i < j < names.len() implies names[i] != names[j] by {
        lemma_text_before_asymmetric(names[i], names[j]);
    }
    assert(names.no_duplicates());
    names.unique_seq_to_set();
}

/// Whether an entity is the last one in a list with its id.
pub open spec fn is_last_of_its_id(infos: Seq<InfoView>, k: int) -> bool {
    &&& 0 <= k < infos.len()
    &&& forall|j: int| k < j < infos.len() ==> (#[trigger] infos[j]).id != infos[k].id
}

proof fn lemma_last_of_its_id(infos: Seq<InfoView>, id: Seq<char>)
    ensures
        by_ids(infos).contains_key(id) <==> exists|k: int|
            0 <= k < infos.len() && (#[trigger] infos[k]).id == id,
        forall|k: int| #[trigger]
            is_last_of_its_id(infos, k) && infos[k].id == id ==> by_ids(infos)[id] == infos[k],
    decreases infos.len(),
{
    if infos.len() > 0 {
        let front = infos.drop_last();
        let n = infos.len() - 1;
        lemma_last_of_its_id(front, id);
        if by_ids(front).contains_key(id) {
            let k = choose|k: int| 0 <= k < front.len() && (#[trigger] front[k]).id == id;
            assert(infos[k].id == id);
        }
        if exists|k: int| 0 <= k < infos.len() && (#[trigger] infos[k]).id == id {
            let k = choose|k: int| 0 <= k < infos.len() && (#[trigger] infos[k]).id == id;
            if k < n {
                assert(front[k].id == id);
            } else {
                assert(infos.last().id == id);
            }
        }
        if infos[n].id == id {
            assert(by_ids(infos).contains_key(id));
        }
        assert forall|k: int| #[trigger]
            is_last_of_its_id(infos, k) && infos[k].id == id implies by_ids(infos)[id]
            == infos[k] by {
            if k < n {
                assert(infos[n].id != infos[k].id);
                assert forall|j: int| k < j < front.len() implies (#[trigger] front[j]).id
                    != front[k].id by {
                    assert(infos[j].id != infos[k].id);
                }
                assert(is_last_of_its_id(front, k));
            }
        }
    }
}

/// A snapshot from a record has under an id the last entity that is stored with
/// it, and under no other id one; everything else is as it is stored.
pub proof fn law_loading_finds_the_last_of_each_id(record: RecordView, id: Seq<char>, k: int)
    ensures
        ({
            let snapshot = snapshot_of(record);
            let infos = record.entity_infos;
            &&& snapshot.graph.entities.contains_key(id) <==> exists|j: int|
                0 <= j < infos.len() && (#[trigger] infos[j]).id == id
            &&& is_last_of_its_id(infos, k) && infos[k].id == id ==> snapshot.graph.entities[id]
                == infos[k]
            &&& snapshot.graph.edges == record.edges
            &&& snapshot.api_version == record.api_version
            &&& snapshot.cache_key == record.cache_key
            &&& snapshot.file_paths == record.file_paths
            &&& snapshot.entities == record.entities
            &&& snapshot.warnings == record.warnings
        }),
{
    lemma_last_of_its_id(record.entity_infos, id);
}

} // verus!
