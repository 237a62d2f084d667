//! What a diff means for the code around it.

use vstd::prelude::*;

use crate::execution::{cancelled, may_be_told, SemExecutionContext};
use crate::focus::{focus_of, resolve_focus_target_with_execution};
use crate::graph::{
    build_impact_context_from_graph, build_repo_graph_with_execution, graph_impact,
    graph_is_reported, graph_query, query_for, repo_snapshot, resolve_target_entity_result,
    resolved, unknown_id,
};
use crate::hash::is_content_hash;
use crate::keys::{diff_impact_cache_key, diff_impact_key};
use crate::lines::{first_matching_line, mention_snippet};
use crate::model::{
    AnswersView, DiffResult, DiffResultView, EntityGraph, EntityView, GraphView, QueryView,
    SemGraphAnswers, SemGraphQuery, SemanticEntity,
};
use crate::order::{key_fn, sort_keyed, sorted_by, Key, Keyed, SortKey};
use crate::parses::{ParserRegistry, RegistryView};
use crate::search::{contains_identifier, has_piece, Separator};
use crate::seqs::{lemma_filter_step, push_item};
use crate::text::same_text;
use crate::types::{
    DiffImpactView, ErrorView, FileChangeView, FocusTargetView, FocusedView, OptionsView,
    ReferenceView, ResolutionView, SemDiffImpactContext, SemEmbeddedOptions, SemEntityReference,
    SemEntityTarget, SemFileChange, SemFocusResolution, SemFocusTarget, SemFocusedEntity,
    SemGraphSnapshot, SemImpactContext, SemImpactRequest, SemResult, SemSide, SnapshotView,
    TargetView, SEM_EMBEDDED_API_VERSION,
};

verus! {

// ---------------------------------------------------------------------------
// References

impl Keyed for SemEntityReference {
    /// References are sorted by the file and then by the id of the entity.
    open spec fn key_of(value: ReferenceView) -> Key {
        Key { text: value.entity.file_path, first: 0, second: 0, last: value.entity.id }
    }

    fn sort_key(&self) -> (key: SortKey) {
        SortKey {
            text: self.entity.file_path.clone(),
            first: 0,
            second: 0,
            last: self.entity.id.clone(),
        }
    }
}

/// Whether an entity of a graph has another name and mentions a name.
pub open spec fn mentions_name(graph: GraphView, name: Seq<char>) -> spec_fn(EntityView) -> bool {
    |entity: EntityView|
        {
            &&& entity.name != name
            &&& has_piece(entity.content, Separator::NonIdentifier, name)
            &&& graph.entities.contains_key(entity.id)
        }
}

/// An entity that mentions a name, with the first line that does.
pub open spec fn reference_to(graph: GraphView, name: Seq<char>) -> spec_fn(
    EntityView,
) -> ReferenceView {
    |entity: EntityView|
        ReferenceView {
            entity: graph.entities[entity.id],
            snippet: mention_snippet(entity.content, name),
        }
}

/// All entities that mention a name, sorted by file and id.
pub open spec fn all_references(snapshot: SnapshotView, name: Seq<char>) -> Seq<ReferenceView> {
    sorted_by(
        snapshot.entities.filter(mentions_name(snapshot.graph, name)).map_values(
            reference_to(snapshot.graph, name),
        ),
        key_fn::<SemEntityReference>(),
    )
}

/// How many references are shown.
pub open spec fn reference_limit(request: SemImpactRequest) -> nat {
    if request.max_depth > 1 {
        request.max_depth as nat * 32
    } else {
        32
    }
}

/// The first entities that mention a name.
pub open spec fn references(
    snapshot: SnapshotView,
    name: Seq<char>,
    request: SemImpactRequest,
) -> Seq<ReferenceView> {
    let all = all_references(snapshot, name);
    if all.len() <= reference_limit(request) {
        all
    } else {
        all.take(reference_limit(request) as int)
    }
}

/// Collects the entities of a snapshot that mention a name.
pub fn references_to_entity_name(
    snapshot: &SemGraphSnapshot,
    entity_name: &str,
    request: &SemImpactRequest,
) -> (refs: Vec<SemEntityReference>)
    requires
        snapshot.wf(),
        reference_limit(*request) <= usize::MAX,
    ensures
        refs.deep_view() == references(snapshot.deep_view(), entity_name@, *request),
{
    let ghost graph = snapshot.deep_view().graph;
    let ghost all = snapshot.entities.deep_view();
    let ghost wanted = mentions_name(graph, entity_name@);
    let ghost make = reference_to(graph, entity_name@);
    let mut found: Vec<SemEntityReference> = Vec::new();
    let mut i: usize = 0;
    proof {
        reveal(Seq::filter);
        assert(found.deep_view() =~= all.take(0).filter(wanted).map_values(make));
    }
    while i < snapshot.entities.len()
        invariant
            i <= snapshot.entities@.len(),
            snapshot.wf(),
            graph == snapshot.deep_view().graph,
            all == snapshot.entities.deep_view(),
            wanted == mentions_name(graph, entity_name@),
            make == reference_to(graph, entity_name@),
            found.deep_view() == all.take(i as int).filter(wanted).map_values(make),
        decreases snapshot.entities@.len() - i,
    {
        let entity = &snapshot.entities[i];
        proof {
            assert(all[i as int] == entity.deep_view());
            lemma_filter_step(all, wanted, i as int);
        }
        if !same_text(entity.name.as_str(), entity_name) && contains_identifier(
            entity.content.as_str(),
            entity_name,
        ) {
            if let Some(info) = snapshot.graph.entities.get(entity.id.as_str()) {
                assert(graph.entities[entity.id@] == info.deep_view());
                push_item(
                    &mut found,
                    SemEntityReference {
                        entity: info.clone(),
                        snippet: first_matching_line(entity.content.as_str(), entity_name),
                    },
                );
            }
        }
        assert(found.deep_view() =~= all.take(i + 1).filter(wanted).map_values(make));
        i = i + 1;
    }
    assert(all.take(i as int) =~= all);
    let mut refs = sort_keyed(found);
    let depth: usize = if request.max_depth > 1 {
        request.max_depth
    } else {
        1
    };
    let limit: usize = depth * 32;
    let ghost sorted = refs.deep_view();
    if refs.len() > limit {
        refs.truncate(limit);
        assert(refs.deep_view() =~= sorted.take(limit as int));
    }
    refs
}

// ---------------------------------------------------------------------------
// Diff impact

/// The target that names an entity in focus in all ways.
pub open spec fn target_of(entity: FocusedView) -> TargetView {
    TargetView {
        entity_id: Some(entity.entity.id),
        entity_name: Some(entity.entity.name),
        file_path: Some(entity.entity.file_path),
    }
}

fn target_of_entity(entity: &SemFocusedEntity) -> (target: SemEntityTarget)
    ensures
        target.deep_view() == target_of(entity.deep_view()),
{
    SemEntityTarget {
        entity_id: Some(entity.entity.id.clone()),
        entity_name: Some(entity.entity.name.clone()),
        file_path: Some(entity.entity.file_path.clone()),
    }
}

/// Whether the entity in focus stood there before the diff, and the graph of the
/// code after it lacks it.
pub open spec fn focus_is_gone(focus: ResolutionView, graph: GraphView) -> bool {
    focus.target_entity matches Some(entity) && entity.side == SemSide::Before && resolved(
        graph,
        target_of(entity),
    ) is Err
}

/// What is noted of an entity that is gone.
pub open spec fn gone_warning(error: ErrorView) -> Seq<char> {
    "Target entity was resolved on the before side; current graph lookup failed: "@ + error.message
}

/// What a diff means for the entity in focus: its impact context or, if it is
/// gone, what still mentions it.
pub open spec fn diff_impact<H: Fn(&str) -> String>(
    hash: H,
    focus: ResolutionView,
    snapshot: SnapshotView,
    file_paths: Seq<Seq<char>>,
    changes: Seq<FileChangeView>,
    target: FocusTargetView,
    request: SemImpactRequest,
    options: OptionsView,
    answers: AnswersView,
) -> Result<DiffImpactView, ErrorView> {
    let empty = DiffImpactView {
        api_version: SEM_EMBEDDED_API_VERSION@,
        cache_key: diff_impact_key(
            hash,
            file_paths,
            changes,
            target,
            request,
            options,
            snapshot.cache_key,
        ),
        focus,
        repo_context: None,
        deleted_entity: None,
        references: Seq::empty(),
        warnings: Seq::empty(),
    };
    match focus.target_entity {
        None => Ok(
            DiffImpactView {
                warnings: seq!["No focus entity resolved for diff impact context."@],
                ..empty
            },
        ),
        Some(entity) => match graph_impact(hash, snapshot, target_of(entity), request, answers) {
            Ok(context) => Ok(DiffImpactView { repo_context: Some(context), ..empty }),
            Err(error) => if entity.side == SemSide::Before {
                Ok(
                    DiffImpactView {
                        deleted_entity: Some(entity),
                        references: references(snapshot, entity.entity.name, request),
                        warnings: seq![gone_warning(error)],
                        ..empty
                    },
                )
            } else {
                Err(error)
            },
        },
    }
}

/// Decides what is asked of the graph about the entity in focus: nothing, if
/// there is none or the graph lacks it.
pub fn diff_impact_query(
    focus: &SemFocusResolution,
    snapshot: &SemGraphSnapshot,
    request: &SemImpactRequest,
) -> (query: Option<SemGraphQuery>)
    requires
        snapshot.wf(),
    ensures
        query.deep_view() == match focus.deep_view().target_entity {
            Some(entity) => match resolved(snapshot.deep_view().graph, target_of(entity)) {
                Ok(info) => Some(query_for(info, *request)),
                Err(_) => None,
            },
            None => None::<QueryView>,
        },
{
    match &focus.target_entity {
        Some(entity) => match graph_query(snapshot, &target_of_entity(entity), request) {
            Ok(query) => Some(query),
            Err(_) => None,
        },
        None => None,
    }
}

/// Tells whether the references to the entity in focus can be counted, where it
/// is gone.
pub fn can_count_references(
    focus: &SemFocusResolution,
    snapshot: &SemGraphSnapshot,
    request: &SemImpactRequest,
) -> (can: bool)
    requires
        snapshot.wf(),
    ensures
        can == (focus_is_gone(focus.deep_view(), snapshot.deep_view().graph) ==> reference_limit(
            *request,
        ) <= usize::MAX),
{
    match &focus.target_entity {
        Some(entity) => entity.side != SemSide::Before || request.max_depth <= usize::MAX / 32
            || resolve_target_entity_result(&snapshot.graph, &target_of_entity(entity)).is_ok(),
        None => true,
    }
}

/// Puts together what a diff means for the entity in focus, given what the graph
/// answers to the [`diff_impact_query`].
pub fn diff_impact_from_parts<H: Fn(&str) -> String>(
    focus: SemFocusResolution,
    snapshot: &SemGraphSnapshot,
    repo_file_paths: &[String],
    changes: &[SemFileChange],
    target: &SemFocusTarget,
    request: &SemImpactRequest,
    options: &SemEmbeddedOptions,
    answers: &SemGraphAnswers,
    hash: &H,
) -> (outcome: SemResult<SemDiffImpactContext>)
    requires
        is_content_hash(*hash),
        snapshot.wf(),
        focus_is_gone(focus.deep_view(), snapshot.deep_view().graph) ==> reference_limit(*request)
            <= usize::MAX,
    ensures
        match (
            outcome,
            diff_impact(
                *hash,
                focus.deep_view(),
                snapshot.deep_view(),
                repo_file_paths.deep_view(),
                changes.deep_view(),
                target.deep_view(),
                *request,
                options.deep_view(),
                answers.deep_view(),
            ),
        ) {
            (Ok(context), Ok(expected)) => context.deep_view() == expected,
            (Err(error), Err(expected)) => error.deep_view() == expected,
            _ => false,
        },
{
    let mut warnings: Vec<String> = Vec::new();
    let mut repo_context: Option<SemImpactContext> = None;
    let mut deleted_entity: Option<SemFocusedEntity> = None;
    let mut references: Vec<SemEntityReference> = Vec::new();
    assert(warnings.deep_view() =~= Seq::empty());
    assert(references.deep_view() =~= Seq::empty());
    match &focus.target_entity {
        Some(entity) => {
            let entity_target = target_of_entity(entity);
            match build_impact_context_from_graph(
                snapshot,
                &entity_target,
                request,
                answers,
                hash,
            ) {
                Ok(context) => {
                    repo_context = Some(context);
                },
                Err(error) => {
                    if entity.side == SemSide::Before {
                        deleted_entity = Some(entity.clone());
                        references = references_to_entity_name(
                            snapshot,
                            entity.entity.name.as_str(),
                            request,
                        );
                        let mut warning =
                            "Target entity was resolved on the before side; current graph lookup failed: ".to_string();
                        warning.append(error.message.as_str());
                        push_item(&mut warnings, warning);
                        assert(warnings.deep_view() =~= seq![gone_warning(error.deep_view())]);
                    } else {
                        return Err(error);
                    }
                },
            }
        },
        None => {
            push_item(
                &mut warnings,
                "No focus entity resolved for diff impact context.".to_string(),
            );
            assert(warnings.deep_view() =~= seq![
                "No focus entity resolved for diff impact context."@,
            ]);
        },
    }
    Ok(
        SemDiffImpactContext {
            api_version: SEM_EMBEDDED_API_VERSION.to_string(),
            cache_key: diff_impact_cache_key(
                repo_file_paths,
                changes,
                target,
                request,
                options,
                snapshot.cache_key.as_str(),
                hash,
            ),
            focus,
            repo_context,
            deleted_entity,
            references,
            warnings,
        },
    )
}

/// What a diff means for the entity in focus, given the graph of the code after
/// it and what the graph answers.
pub open spec fn diff_impact_in_repo<H: Fn(&str) -> String>(
    hash: H,
    root: Seq<char>,
    file_paths: Seq<Seq<char>>,
    changes: Seq<FileChangeView>,
    target: FocusTargetView,
    request: SemImpactRequest,
    options: OptionsView,
    registry: RegistryView,
    result: DiffResultView,
    graph: GraphView,
    entities: Seq<EntityView>,
    answers: AnswersView,
) -> Result<DiffImpactView, ErrorView> {
    diff_impact(
        hash,
        focus_of(hash, changes, target, options, registry, result),
        repo_snapshot(hash, root, file_paths, options, graph, entities),
        file_paths,
        changes,
        target,
        request,
        options,
        answers,
    )
}

/// Tells what a diff means for the entity in focus, unless the work is
/// cancelled.
pub fn build_diff_impact_context_with_execution<H: Fn(&str) -> String>(
    root: &str,
    repo_file_paths: &[String],
    changes: &[SemFileChange],
    target: &SemFocusTarget,
    request: &SemImpactRequest,
    options: &SemEmbeddedOptions,
    execution: &SemExecutionContext<'_>,
    registry: &ParserRegistry,
    result: &DiffResult,
    graph: EntityGraph,
    entities: Vec<SemanticEntity>,
    answers: &SemGraphAnswers,
    hash: &H,
) -> (outcome: SemResult<SemDiffImpactContext>)
    requires
        is_content_hash(*hash),
        graph.entities.wf(),
        focus_is_gone(
            focus_of(
                *hash,
                changes.deep_view(),
                target.deep_view(),
                options.deep_view(),
                registry.deep_view(),
                result.deep_view(),
            ),
            graph.deep_view(),
        ) ==> reference_limit(*request) <= usize::MAX,
    ensures
        ({
            let expected = diff_impact_in_repo(
                *hash,
                root@,
                repo_file_paths.deep_view(),
                changes.deep_view(),
                target.deep_view(),
                *request,
                options.deep_view(),
                registry.deep_view(),
                result.deep_view(),
                graph.deep_view(),
                entities.deep_view(),
                answers.deep_view(),
            );
            match outcome {
                Ok(context) => {
                    &&& may_be_told(execution, false)
                    &&& graph_is_reported(execution, repo_file_paths@.len() as usize)
                    &&& expected == Ok::<DiffImpactView, ErrorView>(context.deep_view())
                },
                Err(error) => {
                    ||| may_be_told(execution, false) && graph_is_reported(
                        execution,
                        repo_file_paths@.len() as usize,
                    ) && expected == Err::<DiffImpactView, ErrorView>(error.deep_view())
                    ||| may_be_told(execution, true) && error.deep_view() == cancelled()
                },
            }
        }),
{
    let focus = match resolve_focus_target_with_execution(
        changes,
        target,
        options,
        execution,
        registry,
        result,
        hash,
    ) {
        Ok(focus) => focus,
        Err(error) => {
            return Err(error);
        },
    };
    let snapshot = match build_repo_graph_with_execution(
        root,
        repo_file_paths,
        options,
        execution,
        graph,
        entities,
        hash,
    ) {
        Ok(snapshot) => snapshot,
        Err(error) => {
            return Err(error);
        },
    };
    diff_impact_from_parts(
        focus,
        &snapshot,
        repo_file_paths,
        changes,
        target,
        request,
        options,
        answers,
        hash,
    )
}

/// Tells what a diff means for the entity in focus.
pub fn build_diff_impact_context<H: Fn(&str) -> String>(
    root: &str,
    repo_file_paths: &[String],
    changes: &[SemFileChange],
    target: &SemFocusTarget,
    request: &SemImpactRequest,
    options: &SemEmbeddedOptions,
    registry: &ParserRegistry,
    result: &DiffResult,
    graph: EntityGraph,
    entities: Vec<SemanticEntity>,
    answers: &SemGraphAnswers,
    hash: &H,
) -> (outcome: SemResult<SemDiffImpactContext>)
    requires
        is_content_hash(*hash),
        graph.entities.wf(),
        focus_is_gone(
            focus_of(
                *hash,
                changes.deep_view(),
                target.deep_view(),
                options.deep_view(),
                registry.deep_view(),
                result.deep_view(),
            ),
            graph.deep_view(),
        ) ==> reference_limit(*request) <= usize::MAX,
    ensures
        match (
            outcome,
            diff_impact_in_repo(
                *hash,
                root@,
                repo_file_paths.deep_view(),
                changes.deep_view(),
                target.deep_view(),
                *request,
                options.deep_view(),
                registry.deep_view(),
                result.deep_view(),
                graph.deep_view(),
                entities.deep_view(),
                answers.deep_view(),
            ),
        ) {
            (Ok(context), Ok(expected)) => context.deep_view() == expected,
            (Err(error), Err(expected)) => error.deep_view() == expected,
            _ => false,
        },
{
    build_diff_impact_context_with_execution(
        root,
        repo_file_paths,
        changes,
        target,
        request,
        options,
        &SemExecutionContext::default(),
        registry,
        result,
        graph,
        entities,
        answers,
        hash,
    )
}

// ---------------------------------------------------------------------------
// Laws

/// The diff impact of an entity fails only if the entity stands there after the
/// diff and the graph of that code lacks its id.
pub proof fn law_diff_impact_fails_only_on_a_missing_entity<H: Fn(&str) -> String>(
    hash: H,
    focus: ResolutionView,
    snapshot: SnapshotView,
    file_paths: Seq<Seq<char>>,
    changes: Seq<FileChangeView>,
    target: FocusTargetView,
    request: SemImpactRequest,
    options: OptionsView,
    answers: AnswersView,
)
    ensures
        diff_impact(
            hash,
            focus,
            snapshot,
            file_paths,
            changes,
            target,
            request,
            options,
            answers,
        ) matches Err(error) ==> focus.target_entity matches Some(entity) && entity.side
            == SemSide::After && !snapshot.graph.entities.contains_key(entity.entity.id) && error
            == unknown_id(entity.entity.id),
{
}

} // verus!
