//! Snapshots of entity graphs, and what they say of one entity.

use vstd::prelude::*;

use crate::collections::{
    ascending, lemma_listed, lemma_listed_exists, listed, StringMap,
};
use crate::execution::{
    cancelled, ensure_not_cancelled, error_text, failure, is_reported, may_be_told,
    progress_event, report_progress, SemExecutionContext,
};
use crate::hash::is_content_hash;
use crate::keys::{impact_cache_key, impact_key, repo_graph_cache_key, repo_graph_key};
use crate::model::{
    AnswersView, ContextEntry, EntityGraph, EntityInfo, EntityView, GraphView, InfoView,
    QueryView, RawContextView, ReachedView, SemGraphAnswers, SemGraphQuery, SemanticEntity,
};
use crate::order::{
    key_fn, sort_keyed, sorted_by, sorted_strings, sorted_texts, Key, Keyed, SortKey,
};
use crate::seqs::{lemma_filter_step, push_item, slice_of};
use crate::text::{
    decimal, decimal_text, lemma_text_before_asymmetric, same_text, text_before,
};
use crate::types::{
    ContextView, ErrorView, ImpactEntityView, ImpactView, OptionsView, ProgressView, RecordView,
    SemContextEntry, SemEmbeddedOptions, SemEntityTarget, SemErrorKind, SemGraphCacheRecord,
    SemGraphSnapshot, SemImpactContext, SemImpactEntity, SemImpactRequest, SemProgressEvent,
    SemResult, SnapshotView, TargetView, SEM_EMBEDDED_API_VERSION,
};

verus! {

// ---------------------------------------------------------------------------
// The entities of a graph

/// The entities of a graph, in the order of the keys they stand under.
pub open spec fn infos_of(graph: GraphView) -> Seq<InfoView> {
    listed(graph.entities.dom()).map_values(|key: Seq<char>| graph.entities[key])
}

fn list_infos(graph: &EntityGraph) -> (infos: Vec<EntityInfo>)
    requires
        graph.entities.wf(),
    ensures
        infos.deep_view() == infos_of(graph.deep_view()),
{
    let ghost all = infos_of(graph.deep_view());
    let ghost names = listed(graph.entities@.dom());
    let mut infos: Vec<EntityInfo> = Vec::new();
    let n: usize = graph.entities.len();
    let mut i: usize = 0;
    assert(graph.deep_view().entities.dom() =~= graph.entities@.dom());
    assert(infos.deep_view() =~= all.take(0));
    while i < n
        invariant
            i <= n,
            n == names.len(),
            graph.entities.wf(),
            names == listed(graph.entities@.dom()),
            names == listed(graph.deep_view().entities.dom()),
            all == infos_of(graph.deep_view()),
            infos.deep_view() == all.take(i as int),
        decreases n - i,
    {
        let info = graph.entities.value_at(i);
        assert(all[i as int] == info.deep_view());
        push_item(&mut infos, info.clone());
        assert(infos.deep_view() =~= all.take(i + 1));
        i = i + 1;
    }
    assert(all.take(i as int) =~= all);
    infos
}

impl Keyed for EntityInfo {
    /// Entities of a graph are sorted by their ids.
    open spec fn key_of(value: InfoView) -> Key {
        Key { text: Seq::empty(), first: 0, second: 0, last: value.id }
    }

    fn sort_key(&self) -> (key: SortKey) {
        SortKey { text: String::new(), first: 0, second: 0, last: self.id.clone() }
    }
}

/// Entities under their ids: the last one, where an id occurs more than once.
pub open spec fn by_ids(infos: Seq<InfoView>) -> Map<Seq<char>, InfoView>
    decreases infos.len(),
{
    if infos.len() == 0 {
        Map::empty()
    } else {
        by_ids(infos.drop_last()).insert(infos.last().id, infos.last())
    }
}

fn map_by_ids(infos: &[EntityInfo]) -> (map: StringMap<EntityInfo>)
    ensures
        map.wf(),
        map.deep_view() == by_ids(infos.deep_view()),
{
    let ghost all = infos.deep_view();
    let mut map: StringMap<EntityInfo> = StringMap::new();
    let mut i: usize = 0;
    assert(map.deep_view() =~= by_ids(all.take(0)));
    while i < infos.len()
        invariant
            i <= infos@.len(),
            all == infos.deep_view(),
            map.wf(),
            map.deep_view() == by_ids(all.take(i as int)),
        decreases infos@.len() - i,
    {
        let ghost before = map.deep_view();
        let info = &infos[i];
        map.insert(info.id.clone(), info.clone());
        proof {
            assert(all.take(i + 1).drop_last() =~= all.take(i as int));
            assert(all.take(i + 1).last() == info.deep_view());
            assert(map.deep_view() =~= before.insert(info.id@, info.deep_view()));
        }
        i = i + 1;
    }
    assert(all.take(i as int) =~= all);
    map
}

// ---------------------------------------------------------------------------
// Cache records

/// A snapshot in the form in which it is stored, its entities sorted by their
/// ids.
pub open spec fn record_of(snapshot: SnapshotView) -> RecordView {
    RecordView {
        api_version: snapshot.api_version,
        cache_key: snapshot.cache_key,
        file_paths: snapshot.file_paths,
        entities: snapshot.entities,
        entity_infos: sorted_by(infos_of(snapshot.graph), key_fn::<EntityInfo>()),
        edges: snapshot.graph.edges,
        warnings: snapshot.warnings,
    }
}

/// The snapshot that is stored in a record.
pub open spec fn snapshot_of(record: RecordView) -> SnapshotView {
    SnapshotView {
        api_version: record.api_version,
        cache_key: record.cache_key,
        file_paths: record.file_paths,
        graph: GraphView { entities: by_ids(record.entity_infos), edges: record.edges },
        entities: record.entities,
        warnings: record.warnings,
    }
}

/// The error of a record from another version of the interface.
pub open spec fn unsupported_record(version: Seq<char>) -> ErrorView {
    ErrorView {
        kind: SemErrorKind::InvalidInput,
        message: "unsupported graph cache api version: "@ + version,
    }
}

impl SemGraphSnapshot {
    /// The entities of the graph are found by their keys.
    pub open spec fn wf(&self) -> bool {
        self.graph.entities.wf()
    }

    /// Puts the snapshot into the form in which it is stored.
    pub fn to_cache_record(&self) -> (record: SemGraphCacheRecord)
        requires
            self.wf(),
        ensures
            record.deep_view() == record_of(self.deep_view()),
    {
        let record = SemGraphCacheRecord {
            api_version: self.api_version.clone(),
            cache_key: self.cache_key.clone(),
            file_paths: self.file_paths.clone(),
            entities: self.entities.clone(),
            entity_infos: sort_keyed(list_infos(&self.graph)),
            edges: self.graph.edges.clone(),
            warnings: self.warnings.clone(),
        };
        proof {
            assert(record.file_paths.deep_view() =~= self.file_paths.deep_view());
            assert(record.entities.deep_view() =~= self.entities.deep_view());
            assert(record.edges.deep_view() =~= self.graph.edges.deep_view());
            assert(record.warnings.deep_view() =~= self.warnings.deep_view());
        }
        record
    }

    /// Takes the snapshot out of a record, if the record is of this version of
    /// the interface.
    pub fn from_cache_record(record: SemGraphCacheRecord) -> (outcome: SemResult<SemGraphSnapshot>)
        ensures
            match outcome {
                Ok(snapshot) => {
                    &&& record.api_version@ == SEM_EMBEDDED_API_VERSION@
                    &&& snapshot.wf()
                    &&& snapshot.deep_view() == snapshot_of(record.deep_view())
                },
                Err(error) => {
                    &&& record.api_version@ != SEM_EMBEDDED_API_VERSION@
                    &&& error.deep_view() == unsupported_record(record.api_version@)
                },
            },
    {
        if !same_text(record.api_version.as_str(), SEM_EMBEDDED_API_VERSION) {
            let mut message = "unsupported graph cache api version: ".to_string();
            message.append(record.api_version.as_str());
            return Err(failure(SemErrorKind::InvalidInput, message));
        }
        let entities = map_by_ids(slice_of(&record.entity_infos));
        Ok(
            SemGraphSnapshot {
                api_version: record.api_version,
                cache_key: record.cache_key,
                file_paths: record.file_paths,
                graph: EntityGraph { entities, edges: record.edges },
                entities: record.entities,
                warnings: record.warnings,
            },
        )
    }
}

// ---------------------------------------------------------------------------
// Snapshots of repositories

/// The snapshot of a graph that was built from files under a root.
pub open spec fn repo_snapshot<H: Fn(&str) -> String>(
    hash: H,
    root: Seq<char>,
    file_paths: Seq<Seq<char>>,
    options: OptionsView,
    graph: GraphView,
    entities: Seq<EntityView>,
) -> SnapshotView {
    SnapshotView {
        api_version: SEM_EMBEDDED_API_VERSION@,
        cache_key: repo_graph_key(hash, root, file_paths, options, entities),
        file_paths: sorted_texts(file_paths),
        graph,
        entities,
        warnings: Seq::empty(),
    }
}

/// What is reported before a graph is built.
pub open spec fn graph_started(files: usize) -> ProgressView {
    ProgressView {
        stage: "graph"@,
        message: "Building semantic graph for "@ + decimal(files as nat) + " files"@,
        completed: Some(0),
        total: Some(files),
    }
}

/// What is reported once a graph is built.
pub open spec fn graph_ready(files: usize) -> ProgressView {
    ProgressView {
        stage: "graph"@,
        message: "Semantic graph ready"@,
        completed: Some(files),
        total: Some(files),
    }
}

/// Whether it is reported that a graph is built, and that it is done.
pub open spec fn graph_is_reported(execution: &SemExecutionContext<'_>, files: usize) -> bool {
    is_reported(execution, graph_started(files)) && is_reported(execution, graph_ready(files))
}

/// What is reported before a graph is built.
pub fn graph_started_event(files: usize) -> (event: SemProgressEvent)
    ensures
        event.deep_view() == graph_started(files),
{
    let mut message = "Building semantic graph for ".to_string();
    message.append(decimal_text(files as u64).as_str());
    message.append(" files");
    progress_event("graph", message.as_str(), Some(0), Some(files))
}

/// What is reported once a graph is built.
pub fn graph_ready_event(files: usize) -> (event: SemProgressEvent)
    ensures
        event.deep_view() == graph_ready(files),
{
    progress_event("graph", "Semantic graph ready", Some(files), Some(files))
}

/// What comes before a graph is built: fails if the work is cancelled, and
/// reports that it begins.
pub fn begin_repo_graph(file_paths: &[String], execution: &SemExecutionContext<'_>) -> (outcome:
    SemResult<()>)
    ensures
        may_be_told(execution, outcome is Err),
        outcome is Ok ==> is_reported(execution, graph_started(file_paths@.len() as usize)),
        outcome matches Err(error) ==> error.deep_view() == cancelled(),
{
    if let Err(error) = ensure_not_cancelled(execution) {
        return Err(error);
    }
    report_progress(execution, graph_started_event(file_paths.len()));
    Ok(())
}

/// What comes after a graph was built: fails if the work was cancelled
/// meanwhile, reports that it is done, and makes the snapshot.
pub fn finish_repo_graph<H: Fn(&str) -> String>(
    root: &str,
    file_paths: &[String],
    options: &SemEmbeddedOptions,
    execution: &SemExecutionContext<'_>,
    graph: EntityGraph,
    entities: Vec<SemanticEntity>,
    hash: &H,
) -> (outcome: SemResult<SemGraphSnapshot>)
    requires
        is_content_hash(*hash),
        graph.entities.wf(),
    ensures
        may_be_told(execution, outcome is Err),
        match outcome {
            Ok(snapshot) => {
                &&& is_reported(execution, graph_ready(file_paths@.len() as usize))
                &&& snapshot.wf()
                &&& snapshot.deep_view() == repo_snapshot(
                    *hash,
                    root@,
                    file_paths.deep_view(),
                    options.deep_view(),
                    graph.deep_view(),
                    entities.deep_view(),
                )
            },
            Err(error) => error.deep_view() == cancelled(),
        },
{
    if let Err(error) = ensure_not_cancelled(execution) {
        return Err(error);
    }
    report_progress(execution, graph_ready_event(file_paths.len()));
    let warnings: Vec<String> = Vec::new();
    assert(warnings.deep_view() =~= Seq::empty());
    Ok(
        SemGraphSnapshot {
            api_version: SEM_EMBEDDED_API_VERSION.to_string(),
            cache_key: repo_graph_cache_key(
                root,
                file_paths,
                options,
                slice_of(&entities),
                hash,
            ),
            file_paths: sorted_strings(file_paths),
            graph,
            entities,
            warnings,
        },
    )
}

/// Makes the snapshot of a graph, given what was built from the files under a
/// root, unless the work is cancelled.
pub fn build_repo_graph_with_execution<H: Fn(&str) -> String>(
    root: &str,
    file_paths: &[String],
    options: &SemEmbeddedOptions,
    execution: &SemExecutionContext<'_>,
    graph: EntityGraph,
    entities: Vec<SemanticEntity>,
    hash: &H,
) -> (outcome: SemResult<SemGraphSnapshot>)
    requires
        is_content_hash(*hash),
        graph.entities.wf(),
    ensures
        may_be_told(execution, outcome is Err),
        match outcome {
            Ok(snapshot) => {
                &&& graph_is_reported(execution, file_paths@.len() as usize)
                &&& snapshot.wf()
                &&& snapshot.deep_view() == repo_snapshot(
                    *hash,
                    root@,
                    file_paths.deep_view(),
                    options.deep_view(),
                    graph.deep_view(),
                    entities.deep_view(),
                )
            },
            Err(error) => error.deep_view() == cancelled(),
        },
{
    if let Err(error) = begin_repo_graph(file_paths, execution) {
        return Err(error);
    }
    finish_repo_graph(root, file_paths, options, execution, graph, entities, hash)
}

/// Makes the snapshot of a graph, given what was built from the files under a
/// root.
pub fn build_repo_graph<H: Fn(&str) -> String>(
    root: &str,
    file_paths: &[String],
    options: &SemEmbeddedOptions,
    graph: EntityGraph,
    entities: Vec<SemanticEntity>,
    hash: &H,
) -> (outcome: SemResult<SemGraphSnapshot>)
    requires
        is_content_hash(*hash),
        graph.entities.wf(),
    ensures
        outcome is Ok,
        outcome->Ok_0.wf(),
        outcome->Ok_0.deep_view() == repo_snapshot(
            *hash,
            root@,
            file_paths.deep_view(),
            options.deep_view(),
            graph.deep_view(),
            entities.deep_view(),
        ),
{
    build_repo_graph_with_execution(
        root,
        file_paths,
        options,
        &SemExecutionContext::default(),
        graph,
        entities,
        hash,
    )
}

// ---------------------------------------------------------------------------
// Finding an entity

/// Whether an entity has a name and, where one is given, stands in a file.
pub open spec fn is_named(name: Seq<char>, path: Option<Seq<char>>) -> spec_fn(InfoView) -> bool {
    |info: InfoView| info.name == name && (path matches Some(path) ==> info.file_path == path)
}

/// The entities of a graph with a name and, where one is given, in a file.
pub open spec fn entities_named(graph: GraphView, name: Seq<char>, path: Option<Seq<char>>) -> Seq<
    InfoView,
> {
    infos_of(graph).filter(is_named(name, path))
}

/// The error of a target that names an entity in no way.
pub open spec fn unnamed_target() -> ErrorView {
    ErrorView {
        kind: SemErrorKind::InvalidInput,
        message: "target must include entity_id or entity_name"@,
    }
}

/// The error of an id that no entity has.
pub open spec fn unknown_id(id: Seq<char>) -> ErrorView {
    ErrorView { kind: SemErrorKind::NotFound, message: "entity id not found: "@ + id }
}

/// The error of a name that no entity has.
pub open spec fn unknown_name(name: Seq<char>) -> ErrorView {
    ErrorView { kind: SemErrorKind::NotFound, message: "entity name not found: "@ + name }
}

/// The error of a name that more than one entity has.
pub open spec fn ambiguous_name(name: Seq<char>, count: nat) -> ErrorView {
    ErrorView {
        kind: SemErrorKind::AmbiguousTarget,
        message: "entity name is ambiguous: "@ + name + " matched "@ + decimal(count)
            + " entities"@,
    }
}

/// The entity that a target names: the one with its id or else the only one
/// with its name and, where it gives one, in its file.
pub open spec fn resolved(graph: GraphView, target: TargetView) -> Result<InfoView, ErrorView> {
    match (target.entity_id, target.entity_name) {
        (Some(id), _) => if graph.entities.contains_key(id) {
            Ok(graph.entities[id])
        } else {
            Err(unknown_id(id))
        },
        (None, None) => Err(unnamed_target()),
        (None, Some(name)) => {
            let found = entities_named(graph, name, target.file_path);
            if found.len() == 1 {
                Ok(found[0])
            } else if found.len() == 0 {
                Err(unknown_name(name))
            } else {
                Err(ambiguous_name(name, found.len()))
            }
        },
    }
}

fn find_named(graph: &EntityGraph, name: &str, path: &Option<String>) -> (found: Vec<EntityInfo>)
    requires
        graph.entities.wf(),
    ensures
        found.deep_view() == entities_named(graph.deep_view(), name@, path.deep_view()),
{
    let infos = list_infos(graph);
    let ghost all = infos.deep_view();
    let ghost wanted = is_named(name@, path.deep_view());
    let mut found: Vec<EntityInfo> = Vec::new();
    let mut i: usize = 0;
    proof {
        reveal(Seq::filter);
        assert(found.deep_view() =~= all.take(0).filter(wanted));
    }
    while i < infos.len()
        invariant
            i <= infos@.len(),
            all == infos.deep_view(),
            wanted == is_named(name@, path.deep_view()),
            found.deep_view() == all.take(i as int).filter(wanted),
        decreases infos@.len() - i,
    {
        let info = &infos[i];
        proof {
            assert(all[i as int] == info.deep_view());
            lemma_filter_step(all, wanted, i as int);
        }
        let path_fits = match path {
            Some(path) => same_text(info.file_path.as_str(), path.as_str()),
            None => true,
        };
        if path_fits && same_text(info.name.as_str(), name) {
            push_item(&mut found, info.clone());
        }
        i = i + 1;
    }
    assert(all.take(i as int) =~= all);
    found
}

/// Finds the entity that a target names.
pub fn resolve_target_entity_result(graph: &EntityGraph, target: &SemEntityTarget) -> (outcome:
    SemResult<EntityInfo>)
    requires
        graph.entities.wf(),
    ensures
        match outcome {
            Ok(info) => resolved(graph.deep_view(), target.deep_view()) == Ok::<
                InfoView,
                ErrorView,
            >(info.deep_view()),
            Err(error) => resolved(graph.deep_view(), target.deep_view()) == Err::<
                InfoView,
                ErrorView,
            >(error.deep_view()),
        },
{
    if let Some(id) = &target.entity_id {
        match graph.entities.get(id.as_str()) {
            Some(info) => {
                assert(graph.deep_view().entities[id@] == info.deep_view());
                return Ok(info.clone());
            },
            None => {
                let mut message = "entity id not found: ".to_string();
                message.append(id.as_str());
                return Err(failure(SemErrorKind::NotFound, message));
            },
        }
    }
    match &target.entity_name {
        None => Err(
            failure(
                SemErrorKind::InvalidInput,
                "target must include entity_id or entity_name".to_string(),
            ),
        ),
        Some(name) => {
            let found = find_named(graph, name.as_str(), &target.file_path);
            if found.len() == 1 {
                assert(found.deep_view()[0] == found@[0].deep_view());
                Ok(found[0].clone())
            } else if found.len() == 0 {
                let mut message = "entity name not found: ".to_string();
                message.append(name.as_str());
                Err(failure(SemErrorKind::NotFound, message))
            } else {
                let mut message = "entity name is ambiguous: ".to_string();
                message.append(name.as_str());
                message.append(" matched ");
                message.append(decimal_text(found.len() as u64).as_str());
                message.append(" entities");
                Err(failure(SemErrorKind::AmbiguousTarget, message))
            }
        },
    }
}

// ---------------------------------------------------------------------------
// Impact

/// A piece of context as it is shown.
pub open spec fn shown_context(entry: RawContextView) -> ContextView {
    ContextView {
        entity_id: entry.entity_id,
        entity_name: entry.entity_name,
        entity_type: entry.entity_type,
        file_path: entry.file_path,
        role: entry.role,
        content: entry.content,
        estimated_tokens: entry.estimated_tokens,
    }
}

impl vstd::std_specs::convert::FromSpecImpl<ContextEntry> for SemContextEntry {
    open spec fn obeys_from_spec() -> bool {
        true
    }

    open spec fn from_spec(value: ContextEntry) -> SemContextEntry {
        SemContextEntry {
            entity_id: value.entity_id,
            entity_name: value.entity_name,
            entity_type: value.entity_type,
            file_path: value.file_path,
            role: value.role,
            content: value.content,
            estimated_tokens: value.estimated_tokens,
        }
    }
}

impl From<ContextEntry> for SemContextEntry {
    fn from(value: ContextEntry) -> (entry: SemContextEntry) {
        SemContextEntry {
            entity_id: value.entity_id,
            entity_name: value.entity_name,
            entity_type: value.entity_type,
            file_path: value.file_path,
            role: value.role,
            content: value.content,
            estimated_tokens: value.estimated_tokens,
        }
    }
}

/// An entity that a change reaches, as it is shown.
pub open spec fn shown_impact(reached: ReachedView) -> ImpactEntityView {
    ImpactEntityView { entity: reached.entity, depth: reached.depth }
}

/// What is asked of a graph about an entity.
pub open spec fn query_for(entity: InfoView, request: SemImpactRequest) -> QueryView {
    QueryView {
        entity_id: entity.id,
        max_depth: request.max_depth,
        token_budget: request.token_budget,
    }
}

/// Decides what is asked of the graph about the entity that a target names.
pub fn graph_query(
    snapshot: &SemGraphSnapshot,
    target: &SemEntityTarget,
    request: &SemImpactRequest,
) -> (outcome: SemResult<SemGraphQuery>)
    requires
        snapshot.wf(),
    ensures
        match (outcome, resolved(snapshot.deep_view().graph, target.deep_view())) {
            (Ok(query), Ok(entity)) => query.deep_view() == query_for(entity, *request),
            (Err(error), Err(expected)) => error.deep_view() == expected,
            _ => false,
        },
{
    match resolve_target_entity_result(&snapshot.graph, target) {
        Ok(entity) => Ok(
            SemGraphQuery {
                entity_id: entity.id,
                max_depth: request.max_depth,
                token_budget: request.token_budget,
            },
        ),
        Err(error) => Err(error),
    }
}

/// An entity with what its graph answered about it.
pub open spec fn impact_of<H: Fn(&str) -> String>(
    hash: H,
    answers: AnswersView,
    file_paths: Seq<Seq<char>>,
    entity: InfoView,
    target: TargetView,
    request: SemImpactRequest,
    graph_key: Seq<char>,
) -> ImpactView {
    ImpactView {
        api_version: SEM_EMBEDDED_API_VERSION@,
        cache_key: impact_key(hash, graph_key, file_paths, target, request),
        entity,
        dependencies: answers.dependencies,
        dependents: answers.dependents,
        impact: answers.impact.map_values(|reached: ReachedView| shown_impact(reached)),
        tests: answers.tests,
        context: answers.context.map_values(|entry: RawContextView| shown_context(entry)),
    }
}

/// Puts together an entity and what its graph answered about it.
pub fn impact_context_from_parts<H: Fn(&str) -> String>(
    answers: &SemGraphAnswers,
    file_paths: &[String],
    entity: EntityInfo,
    target: &SemEntityTarget,
    request: &SemImpactRequest,
    graph_cache_key: &str,
    hash: &H,
) -> (context: SemImpactContext)
    requires
        is_content_hash(*hash),
    ensures
        context.deep_view() == impact_of(
            *hash,
            answers.deep_view(),
            file_paths.deep_view(),
            entity.deep_view(),
            target.deep_view(),
            *request,
            graph_cache_key@,
        ),
{
    let ghost view = answers.deep_view();
    let ghost reached = view.impact.map_values(|reached: ReachedView| shown_impact(reached));
    let ghost shown = view.context.map_values(|entry: RawContextView| shown_context(entry));
    let mut impact: Vec<SemImpactEntity> = Vec::new();
    let mut i: usize = 0;
    assert(impact.deep_view() =~= reached.take(0));
    while i < answers.impact.len()
        invariant
            i <= answers.impact@.len(),
            view == answers.deep_view(),
            reached == view.impact.map_values(|reached: ReachedView| shown_impact(reached)),
            impact.deep_view() == reached.take(i as int),
        decreases answers.impact@.len() - i,
    {
        let next = &answers.impact[i];
        assert(view.impact[i as int] == next.deep_view());
        push_item(
            &mut impact,
            SemImpactEntity { entity: next.entity.clone(), depth: next.depth },
        );
        assert(impact.deep_view() =~= reached.take(i + 1));
        i = i + 1;
    }
    let mut context: Vec<SemContextEntry> = Vec::new();
    let mut k: usize = 0;
    assert(context.deep_view() =~= shown.take(0));
    while k < answers.context.len()
        invariant
            k <= answers.context@.len(),
            view == answers.deep_view(),
            shown == view.context.map_values(|entry: RawContextView| shown_context(entry)),
            context.deep_view() == shown.take(k as int),
        decreases answers.context@.len() - k,
    {
        let entry = answers.context[k].clone();
        assert(view.context[k as int] == entry.deep_view());
        push_item(&mut context, SemContextEntry::from(entry));
        assert(context.deep_view() =~= shown.take(k + 1));
        k = k + 1;
    }
    assert(reached.take(i as int) =~= reached);
    assert(shown.take(k as int) =~= shown);
    let result = SemImpactContext {
        api_version: SEM_EMBEDDED_API_VERSION.to_string(),
        cache_key: impact_cache_key(graph_cache_key, file_paths, target, request, hash),
        entity,
        dependencies: answers.dependencies.clone(),
        dependents: answers.dependents.clone(),
        impact,
        tests: answers.tests.clone(),
        context,
    };
    proof {
        assert(result.dependencies.deep_view() =~= view.dependencies);
        assert(result.dependents.deep_view() =~= view.dependents);
        assert(result.tests.deep_view() =~= view.tests);
    }
    result
}

/// The impact context of the entity that a target names.
pub open spec fn graph_impact<H: Fn(&str) -> String>(
    hash: H,
    snapshot: SnapshotView,
    target: TargetView,
    request: SemImpactRequest,
    answers: AnswersView,
) -> Result<ImpactView, ErrorView> {
    match resolved(snapshot.graph, target) {
        Ok(entity) => Ok(
            impact_of(
                hash,
                answers,
                snapshot.file_paths,
                entity,
                target,
                request,
                snapshot.cache_key,
            ),
        ),
        Err(error) => Err(error),
    }
}

/// Makes the impact context of the entity that a target names, given what the
/// graph answers to the [`graph_query`] about it.
pub fn build_impact_context_from_graph<H: Fn(&str) -> String>(
    snapshot: &SemGraphSnapshot,
    target: &SemEntityTarget,
    request: &SemImpactRequest,
    answers: &SemGraphAnswers,
    hash: &H,
) -> (outcome: SemResult<SemImpactContext>)
    requires
        is_content_hash(*hash),
        snapshot.wf(),
    ensures
        match (
            outcome,
            graph_impact(
                *hash,
                snapshot.deep_view(),
                target.deep_view(),
                *request,
                answers.deep_view(),
            ),
        ) {
            (Ok(context), Ok(expected)) => context.deep_view() == expected,
            (Err(error), Err(expected)) => error.deep_view() == expected,
            _ => false,
        },
{
    match resolve_target_entity_result(&snapshot.graph, target) {
        Ok(entity) => Ok(
            impact_context_from_parts(
                answers,
                slice_of(&snapshot.file_paths),
                entity,
                target,
                request,
                snapshot.cache_key.as_str(),
                hash,
            ),
        ),
        Err(error) => Err(error),
    }
}

/// Makes the impact context of an entity in a repository, given the graph that
/// was built from its files and what the graph answers, unless the work is
/// cancelled.
pub fn build_repo_impact_context_with_execution<H: Fn(&str) -> String>(
    root: &str,
    file_paths: &[String],
    target: &SemEntityTarget,
    request: &SemImpactRequest,
    options: &SemEmbeddedOptions,
    execution: &SemExecutionContext<'_>,
    graph: EntityGraph,
    entities: Vec<SemanticEntity>,
    answers: &SemGraphAnswers,
    hash: &H,
) -> (outcome: SemResult<SemImpactContext>)
    requires
        is_content_hash(*hash),
        graph.entities.wf(),
    ensures
        ({
            let expected = graph_impact(
                *hash,
                repo_snapshot(
                    *hash,
                    root@,
                    file_paths.deep_view(),
                    options.deep_view(),
                    graph.deep_view(),
                    entities.deep_view(),
                ),
                target.deep_view(),
                *request,
                answers.deep_view(),
            );
            match outcome {
                Ok(context) => {
                    &&& may_be_told(execution, false)
                    &&& graph_is_reported(execution, file_paths@.len() as usize)
                    &&& expected == Ok::<ImpactView, ErrorView>(context.deep_view())
                },
                Err(error) => {
                    ||| may_be_told(execution, false) && graph_is_reported(
                        execution,
                        file_paths@.len() as usize,
                    ) && expected == Err::<ImpactView, ErrorView>(error.deep_view())
                    ||| may_be_told(execution, true) && error.deep_view() == cancelled()
                },
            }
        }),
{
    match build_repo_graph_with_execution(
        root,
        file_paths,
        options,
        execution,
        graph,
        entities,
        hash,
    ) {
        Ok(snapshot) => build_impact_context_from_graph(&snapshot, target, request, answers, hash),
        Err(error) => Err(error),
    }
}

/// Makes the impact context of an entity in a repository, given the graph that
/// was built from its files and what the graph answers.
pub fn build_repo_impact_context_result<H: Fn(&str) -> String>(
    root: &str,
    file_paths: &[String],
    target: &SemEntityTarget,
    request: &SemImpactRequest,
    options: &SemEmbeddedOptions,
    graph: EntityGraph,
    entities: Vec<SemanticEntity>,
    answers: &SemGraphAnswers,
    hash: &H,
) -> (outcome: SemResult<SemImpactContext>)
    requires
        is_content_hash(*hash),
        graph.entities.wf(),
    ensures
        match (
            outcome,
            graph_impact(
                *hash,
                repo_snapshot(
                    *hash,
                    root@,
                    file_paths.deep_view(),
                    options.deep_view(),
                    graph.deep_view(),
                    entities.deep_view(),
                ),
                target.deep_view(),
                *request,
                answers.deep_view(),
            ),
        ) {
            (Ok(context), Ok(expected)) => context.deep_view() == expected,
            (Err(error), Err(expected)) => error.deep_view() == expected,
            _ => false,
        },
{
    build_repo_impact_context_with_execution(
        root,
        file_paths,
        target,
        request,
        options,
        &SemExecutionContext::default(),
        graph,
        entities,
        answers,
        hash,
    )
}

/// Like [`build_repo_impact_context_result`], with errors in words.
pub fn build_repo_impact_context<H: Fn(&str) -> String>(
    root: &str,
    file_paths: &[String],
    target: &SemEntityTarget,
    request: &SemImpactRequest,
    options: &SemEmbeddedOptions,
    graph: EntityGraph,
    entities: Vec<SemanticEntity>,
    answers: &SemGraphAnswers,
    hash: &H,
) -> (outcome: Result<SemImpactContext, String>)
    requires
        is_content_hash(*hash),
        graph.entities.wf(),
    ensures
        match (
            outcome,
            graph_impact(
                *hash,
                repo_snapshot(
                    *hash,
                    root@,
                    file_paths.deep_view(),
                    options.deep_view(),
                    graph.deep_view(),
                    entities.deep_view(),
                ),
                target.deep_view(),
                *request,
                answers.deep_view(),
            ),
        ) {
            (Ok(context), Ok(expected)) => context.deep_view() == expected,
            (Err(words), Err(expected)) => words@ == error_text(expected),
            _ => false,
        },
{
    match build_repo_impact_context_result(
        root,
        file_paths,
        target,
        request,
        options,
        graph,
        entities,
        answers,
        hash,
    ) {
        Ok(context) => Ok(context),
        Err(error) => Err(error.to_string()),
    }
}

// ---------------------------------------------------------------------------
// Laws

/// Whether every entity of a graph stands under its own id.
pub open spec fn keyed_by_ids(graph: GraphView) -> bool {
    forall|key: Seq<char>| #[trigger]
        graph.entities.contains_key(key) ==> graph.entities[key].id == key
}

/// What is stored of a snapshot gives the snapshot back, if its entities stand
/// under their ids.
pub proof fn law_snapshot_survives_storage(snapshot: SnapshotView)
    requires
        keyed_by_ids(snapshot.graph),
        snapshot.graph.entities.dom().finite(),
    ensures
        snapshot_of(record_of(snapshot)) == snapshot,
{
    let graph = snapshot.graph;
    let infos = infos_of(graph);
    let names = listed(graph.entities.dom());
    lemma_listed_exists(graph.entities.dom());
    assert forall|i: int| 0 <= i < names.len() implies (#[trigger] infos[i]).id == names[i] by {
        assert(names.to_set().contains(names[i]));
        assert(graph.entities.contains_key(names[i]));
    }
    lemma_sorted_ids(infos, names);
    lemma_by_ids(infos, names);
    assert(by_ids(infos) =~= graph.entities) by {
        assert forall|key: Seq<char>| graph.entities.contains_key(key) <==> by_ids(
            infos,
        ).contains_key(key) by {
            assert(names.contains(key) <==> names.to_set().contains(key));
        }
        assert forall|key: Seq<char>| graph.entities.contains_key(key) implies by_ids(infos)[key]
            == graph.entities[key] by {
            assert(names.to_set().contains(key));
            let i = choose|i: int| 0 <= i < names.len() && names[i] == key;
            assert(by_ids(infos)[names[i]] == infos[i]);
        }
    }
}

/// Entities in ascending order of their ids are sorted already.
proof fn lemma_sorted_ids(infos: Seq<InfoView>, names: Seq<Seq<char>>)
    requires
        ascending(names),
        infos.len() == names.len(),
        forall|i: int| 0 <= i < names.len() ==> (#[trigger] infos[i]).id == names[i],
    ensures
        sorted_by(infos, key_fn::<EntityInfo>()) == infos,
    decreases infos.len(),
{
    if infos.len() > 0 {
        let front = infos.drop_last();
        let front_names = names.drop_last();
        assert forall|i: int| 0 <= i < front.len() implies (#[trigger] front[i]).id
            == front_names[i] by {
            assert(infos[i].id == names[i]);
        }
        assert(ascending(front_names)) by {
            assert forall|i: int, j: int| 0 <= i < j < front_names.len() implies text_before(
                #[trigger] front_names[i],
                #[trigger] front_names[j],
            ) by {
                assert(text_before(names[i], names[j]));
            }
        }
        lemma_sorted_ids(front, front_names);
        if front.len() > 0 {
            let n = infos.len() - 1;
            assert(text_before(names[n - 1], names[n]));
            lemma_text_before_asymmetric(names[n - 1], names[n]);
            assert(infos[n].id == names[n] && infos[n - 1].id == names[n - 1]);
        }
        assert(infos =~= front.push(infos.last()));
    } else {
        assert(sorted_by(infos, key_fn::<EntityInfo>()) =~= infos);
    }
}

/// Entities with different ids are all found under them.
proof fn lemma_by_ids(infos: Seq<InfoView>, names: Seq<Seq<char>>)
    requires
        ascending(names),
        infos.len() == names.len(),
        forall|i: int| 0 <= i < names.len() ==> (#[trigger] infos[i]).id == names[i],
    ensures
        forall|key: Seq<char>| #[trigger] by_ids(infos).contains_key(key) <==> names.contains(key),
        forall|i: int| 0 <= i < names.len() ==> by_ids(infos)[#[trigger] names[i]] == infos[i],
    decreases infos.len(),
{
    if infos.len() > 0 {
        let front = infos.drop_last();
        let front_names = names.drop_last();
        let n = infos.len() - 1;
        assert forall|i: int| 0 <= i < front.len() implies (#[trigger] front[i]).id
            == front_names[i] by {
            assert(infos[i].id == names[i]);
        }
        assert(ascending(front_names)) by {
            assert forall|i: int, j: int| 0 <= i < j < front_names.len() implies text_before(
                #[trigger] front_names[i],
                #[trigger] front_names[j],
            ) by {
                assert(text_before(names[i], names[j]));
            }
        }
        lemma_by_ids(front, front_names);
        assert(infos[n].id == names[n]);
        assert(names =~= front_names.push(names[n]));
        assert forall|key: Seq<char>| #[trigger] by_ids(infos).contains_key(key) <==> names.contains(
            key,
        ) by {
            assert(by_ids(front).contains_key(key) <==> front_names.contains(key));
            if front_names.contains(key) {
                let i = choose|i: int| 0 <= i < front_names.len() && front_names[i] == key;
                assert(names[i] == key);
            }
            if names.contains(key) && key != names[n] {
                let i = choose|i: int| 0 <= i < names.len() && names[i] == key;
                assert(front_names[i] == key);
            }
        }
        assert forall|i: int| 0 <= i < names.len() implies by_ids(infos)[#[trigger] names[i]]
            == infos[i] by {
            if i < n {
                lemma_text_before_asymmetric(names[i], names[n]);
                assert(front_names[i] == names[i]);
                assert(by_ids(front)[front_names[i]] == front[i]);
            }
        }
    }
}

/// A record that holds its entities in ascending order of their ids is what is
/// stored of its snapshot.
pub proof fn law_record_survives_loading(record: RecordView)
    requires
        ascending(record.entity_infos.map_values(|info: InfoView| info.id)),
    ensures
        record_of(snapshot_of(record)) == record,
{
    let infos = record.entity_infos;
    let names = infos.map_values(|info: InfoView| info.id);
    let graph = snapshot_of(record).graph;
    lemma_by_ids(infos, names);
    lemma_listed(names);
    assert(graph.entities.dom() =~= names.to_set()) by {
        assert forall|key: Seq<char>| graph.entities.dom().contains(key) <==> names.to_set().contains(
            key,
        ) by {
            assert(by_ids(infos).contains_key(key) <==> names.contains(key));
        }
    }
    assert(infos_of(graph) =~= infos) by {
        assert forall|i: int| 0 <= i < infos.len() implies infos_of(graph)[i] == infos[i] by {
            assert(by_ids(infos)[names[i]] == infos[i]);
        }
    }
    lemma_sorted_ids(infos, names);
}

/// An entity that a target names by name alone is the only one with that name.
pub proof fn law_a_name_is_resolved_only_if_unique(graph: GraphView, target: TargetView)
    requires
        target.entity_id is None,
        graph.entities.dom().finite(),
        resolved(graph, target) is Ok,
    ensures
        forall|a: Seq<char>, b: Seq<char>|
            #![trigger graph.entities[a], graph.entities[b]]
            graph.entities.contains_key(a) && graph.entities.contains_key(b) && is_named(
                target.entity_name->0,
                target.file_path,
            )(graph.entities[a]) && is_named(target.entity_name->0, target.file_path)(
                graph.entities[b],
            ) ==> a == b,
{
    let wanted = is_named(target.entity_name->0, target.file_path);
    let names = listed(graph.entities.dom());
    let infos = infos_of(graph);
    lemma_listed_exists(graph.entities.dom());
    lemma_listed(names);
    assert forall|a: Seq<char>, b: Seq<char>|
        #![trigger graph.entities[a], graph.entities[b]]
        graph.entities.contains_key(a) && graph.entities.contains_key(b) && wanted(
            graph.entities[a],
        ) && wanted(graph.entities[b]) implies a == b by {
        assert(names.to_set().contains(a) && names.to_set().contains(b));
        let i = choose|i: int| 0 <= i < names.len() && names[i] == a;
        let j = choose|j: int| 0 <= j < names.len() && names[j] == b;
        if i < j {
            lemma_two_kept(infos, wanted, i, j);
        } else if j < i {
            lemma_two_kept(infos, wanted, j, i);
        }
    }
}

/// A filter that keeps two elements keeps at least two.
proof fn lemma_two_kept(infos: Seq<InfoView>, wanted: spec_fn(InfoView) -> bool, i: int, j: int)
    requires
        0 <= i < j < infos.len(),
        wanted(infos[i]),
        wanted(infos[j]),
    ensures
        infos.filter(wanted).len() >= 2,
    decreases infos.len(),
{
    reveal(Seq::filter);
    let front = infos.drop_last();
    if j < front.len() {
        lemma_two_kept(front, wanted, i, j);
    } else {
        lemma_one_kept(front, wanted, i);
    }
}

proof fn lemma_one_kept(infos: Seq<InfoView>, wanted: spec_fn(InfoView) -> bool, i: int)
    requires
        0 <= i < infos.len(),
        wanted(infos[i]),
    ensures
        infos.filter(wanted).len() >= 1,
    decreases infos.len(),
{
    reveal(Seq::filter);
    let front = infos.drop_last();
    if i < front.len() {
        lemma_one_kept(front, wanted, i);
    }
}

} // verus!
