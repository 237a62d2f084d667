//! What holds of every impact context, of an entity and of a diff.

use vstd::prelude::*;

use crate::collections::{lemma_listed, lemma_listed_exists, listed};
use crate::diff_impact::{
    all_references, diff_impact, diff_impact_in_repo, mentions_name, reference_to, references,
    target_of,
};
use crate::focus::focus_of;
use crate::graph::{
    entities_named, graph_impact, infos_of, is_named, query_for, repo_snapshot, resolved,
};
use crate::keys::{diff_impact_key, impact_key, repo_graph_key};
use crate::lines::mention_snippet;
use crate::memory::{memory_snapshot, paths_of_files};
use crate::model::{AnswersView, DiffResultView, EntityView, GraphView, InfoView};
use crate::order::{key_before, key_fn, lemma_sorted_by, lemma_sorted_texts};
use crate::parses::RegistryView;
use crate::search::{has_piece, is_piece, Separator};
use crate::seqs::{lemma_filter_contains, lemma_filter_step};
use crate::text::{decimal, lemma_text_before_irreflexive, text_before};
use crate::types::{
    DiffImpactView, ErrorView, FileChangeView, FileInputView, FocusTargetView, ImpactView,
    OptionsView, ReferenceView, ResolutionView, SemEntityReference, SemErrorKind,
    SemImpactRequest, SemSide, SnapshotView, TargetView,
};

verus! {

// ---------------------------------------------------------------------------
// Finding an entity

/// Whether an entity of a graph has a name and, where one is given, stands in a
/// file.
pub open spec fn is_called(
    graph: GraphView,
    key: Seq<char>,
    name: Seq<char>,
    path: Option<Seq<char>>,
) -> bool {
    &&& graph.entities.contains_key(key)
    &&& graph.entities[key].name == name
    &&& path is None || path == Some(graph.entities[key].file_path)
}

/// A target with an id means the entity of the graph with that id, whatever else
/// it says; one without means the only entity with its name in its file. Where
/// there is none, or more than one, that is the error.
pub proof fn law_a_target_means_one_entity(graph: GraphView, target: TargetView)
    requires
        graph.entities.dom().finite(),
    ensures
        target.entity_id matches Some(id) ==> resolved(graph, target)
            == if graph.entities.contains_key(id) {
            Ok::<InfoView, ErrorView>(graph.entities[id])
        } else {
            Err(
                ErrorView {
                    kind: SemErrorKind::NotFound,
                    message: "entity id not found: "@ + id,
                },
            )
        },
        target.entity_id is None && target.entity_name is None ==> resolved(graph, target) == Err::<
            InfoView,
            ErrorView,
        >(
            ErrorView {
                kind: SemErrorKind::InvalidInput,
                message: "target must include entity_id or entity_name"@,
            },
        ),
        target.entity_id is None ==> (target.entity_name matches Some(name) ==> {
            let called = graph.entities.dom().filter(
                |key: Seq<char>| is_called(graph, key, name, target.file_path),
            );
            if called.len() == 0 {
                resolved(graph, target) == Err::<InfoView, ErrorView>(
                    ErrorView {
                        kind: SemErrorKind::NotFound,
                        message: "entity name not found: "@ + name,
                    },
                )
            } else if called.len() == 1 {
                exists|key: Seq<char>|
                    #![trigger graph.entities[key]]
                    is_called(graph, key, name, target.file_path) && resolved(graph, target) == Ok::<
                        InfoView,
                        ErrorView,
                    >(graph.entities[key])
            } else {
                resolved(graph, target) == Err::<InfoView, ErrorView>(
                    ErrorView {
                        kind: SemErrorKind::AmbiguousTarget,
                        message: "entity name is ambiguous: "@ + name + " matched "@ + decimal(
                            called.len(),
                        ) + " entities"@,
                    },
                )
            }
        }),
{
    if target.entity_id is None {
        if let Some(name) = target.entity_name {
            let fits = |key: Seq<char>| is_called(graph, key, name, target.file_path);
            let wanted = is_named(name, target.file_path);
            let names = listed(graph.entities.dom());
            let infos = infos_of(graph);
            let called = graph.entities.dom().filter(fits);
            let kept = names.filter(fits);
            lemma_listed_exists(graph.entities.dom());
            lemma_listed(names);
            assert forall|i: int| 0 <= i < names.len() implies {
                &&& fits(#[trigger] names[i]) == wanted(infos[i])
                &&& infos[i] == graph.entities[names[i]]
            } by {
                assert(names.to_set().contains(names[i]));
            }
            lemma_filter_of_mapped(names, fits, infos, wanted, graph);
            lemma_filter_keeps_distinct(names, fits);
            lemma_filter_contains(names, fits);
            assert(kept.to_set() =~= called) by {
                assert forall|key: Seq<char>| kept.to_set().contains(key) <==> called.contains(
                    key,
                ) by {
                    assert(kept.to_set().contains(key) <==> kept.contains(key));
                    assert(names.contains(key) <==> names.to_set().contains(key));
                }
            }
            kept.unique_seq_to_set();
            let found = entities_named(graph, name, target.file_path);
            assert(found.len() == called.len());
            if called.len() == 1 {
                assert(kept.contains(kept[0]));
                assert(found[0] == graph.entities[kept[0]]);
                assert(is_called(graph, kept[0], name, target.file_path));
            }
        }
    }
}

proof fn lemma_filter_of_mapped(
    names: Seq<Seq<char>>,
    fits: spec_fn(Seq<char>) -> bool,
    infos: Seq<InfoView>,
    wanted: spec_fn(InfoView) -> bool,
    graph: GraphView,
)
    requires
        names.len() == infos.len(),
        forall|i: int|
            0 <= i < names.len() ==> {
                &&& fits(#[trigger] names[i]) == wanted(infos[i])
                &&& infos[i] == graph.entities[names[i]]
            },
    ensures
        names.filter(fits).len() == infos.filter(wanted).len(),
        forall|i: int|
            0 <= i < names.filter(fits).len() ==> infos.filter(wanted)[i]
                == graph.entities[#[trigger] names.filter(fits)[i]],
    decreases names.len(),
{
    reveal(Seq::filter);
    if names.len() > 0 {
        let n = names.len() - 1;
        let front = names.drop_last();
        let front_infos = infos.drop_last();
        assert forall|i: int| 0 <= i < front.len() implies {
            &&& fits(#[trigger] front[i]) == wanted(front_infos[i])
            &&& front_infos[i] == graph.entities[front[i]]
        } by {
            assert(fits(names[i]) == wanted(infos[i]));
        }
        lemma_filter_of_mapped(front, fits, front_infos, wanted, graph);
        assert(fits(names[n]) == wanted(infos[n]));
    }
}

proof fn lemma_filter_keeps_distinct(names: Seq<Seq<char>>, fits: spec_fn(Seq<char>) -> bool)
    requires
        names.no_duplicates(),
    ensures
        names.filter(fits).no_duplicates(),
    decreases names.len(),
{
    reveal(Seq::filter);
    if names.len() > 0 {
        let front = names.drop_last();
        assert(front.no_duplicates()) by {
            assert forall|i: int, j: int|
                0 <= i < front.len() && 0 <= j < front.len() && i != j implies front[i]
                != front[j] by {
                assert(names[i] != names[j]);
            }
        }
        lemma_filter_keeps_distinct(front, fits);
        lemma_filter_contains(front, fits);
        let kept = front.filter(fits);
        if fits(names.last()) {
            assert forall|i: int| 0 <= i < kept.len() implies kept[i] != names.last() by {
                assert(kept.contains(kept[i]));
                let k = choose|k: int| 0 <= k < front.len() && front[k] == kept[i];
                assert(names[k] != names[names.len() - 1]);
            }
        }
    }
}

// ---------------------------------------------------------------------------
// The impact of an entity

/// Whether an impact context is about an entity and holds what the graph
/// answered.
pub open spec fn is_answered(
    context: ImpactView,
    entity: InfoView,
    answers: AnswersView,
) -> bool {
    &&& context.api_version == "sem-embedded-v1"@
    &&& context.entity == entity
    &&& context.dependencies == answers.dependencies
    &&& context.dependents == answers.dependents
    &&& context.tests == answers.tests
    &&& context.impact.len() == answers.impact.len()
    &&& forall|i: int|
        0 <= i < answers.impact.len() ==> {
            &&& (#[trigger] context.impact[i]).entity == answers.impact[i].entity
            &&& context.impact[i].depth == answers.impact[i].depth
        }
    &&& context.context.len() == answers.context.len()
    &&& forall|i: int|
        0 <= i < answers.context.len() ==> {
            let entry = answers.context[i];
            &&& (#[trigger] context.context[i]).entity_id == entry.entity_id
            &&& context.context[i].entity_name == entry.entity_name
            &&& context.context[i].entity_type == entry.entity_type
            &&& context.context[i].file_path == entry.file_path
            &&& context.context[i].role == entry.role
            &&& context.context[i].content == entry.content
            &&& context.context[i].estimated_tokens == entry.estimated_tokens
        }
}

/// The impact context of a target is about the entity that the target means, and
/// shows each answer of the graph as what it is. The graph is asked about that
/// entity, within the bounds of the request.
pub proof fn law_impact_is_about_the_target<H: Fn(&str) -> String>(
    hash: H,
    snapshot: SnapshotView,
    target: TargetView,
    request: SemImpactRequest,
    answers: AnswersView,
)
    ensures
        match (
            graph_impact(hash, snapshot, target, request, answers),
            resolved(snapshot.graph, target),
        ) {
            (Ok(context), Ok(entity)) => {
                &&& is_answered(context, entity, answers)
                &&& context.cache_key == impact_key(
                    hash,
                    snapshot.cache_key,
                    snapshot.file_paths,
                    target,
                    request,
                )
                &&& query_for(entity, request).entity_id == entity.id
                &&& query_for(entity, request).max_depth == request.max_depth
                &&& query_for(entity, request).token_budget == request.token_budget
            },
            (Err(error), Err(expected)) => error == expected,
            _ => false,
        },
{
    reveal_strlit("sem-embedded-v1");
}

// ---------------------------------------------------------------------------
// The impact of a diff

/// The impact of a diff on the entity in focus: where the graph has the id of
/// the entity, its impact context, whichever side it was found on; where the
/// graph lacks it, the entity itself is deleted if it was found before the diff,
/// and the id is not found otherwise. Without an entity in focus there is
/// nothing but a warning.
pub proof fn law_diff_impact_tells_what_became_of_the_entity<H: Fn(&str) -> String>(
    hash: H,
    focus: ResolutionView,
    snapshot: SnapshotView,
    file_paths: Seq<Seq<char>>,
    changes: Seq<FileChangeView>,
    target: FocusTargetView,
    request: SemImpactRequest,
    options: OptionsView,
    answers: AnswersView,
)
    ensures
        ({
            let impact = diff_impact(
                hash,
                focus,
                snapshot,
                file_paths,
                changes,
                target,
                request,
                options,
                answers,
            );
            &&& impact matches Ok(impact) ==> {
                &&& impact.api_version == "sem-embedded-v1"@
                &&& impact.focus == focus
                &&& impact.cache_key == diff_impact_key(
                    hash,
                    file_paths,
                    changes,
                    target,
                    request,
                    options,
                    snapshot.cache_key,
                )
            }
            &&& match focus.target_entity {
                None => impact matches Ok(impact) && {
                    &&& impact.repo_context is None
                    &&& impact.deleted_entity is None
                    &&& impact.references.len() == 0
                    &&& impact.warnings == seq![
                        "No focus entity resolved for diff impact context."@,
                    ]
                },
                Some(one) => if snapshot.graph.entities.contains_key(one.entity.id) {
                    impact matches Ok(impact) && {
                        &&& impact.repo_context matches Some(context) && is_answered(
                            context,
                            snapshot.graph.entities[one.entity.id],
                            answers,
                        ) && context.cache_key == impact_key(
                            hash,
                            snapshot.cache_key,
                            snapshot.file_paths,
                            TargetView {
                                entity_id: Some(one.entity.id),
                                entity_name: Some(one.entity.name),
                                file_path: Some(one.entity.file_path),
                            },
                            request,
                        )
                        &&& impact.deleted_entity is None
                        &&& impact.references.len() == 0
                        &&& impact.warnings.len() == 0
                    }
                } else if one.side == SemSide::Before {
                    impact matches Ok(impact) && {
                        &&& impact.repo_context is None
                        &&& impact.deleted_entity == Some(one)
                        &&& impact.references == references(snapshot, one.entity.name, request)
                        &&& impact.warnings == seq![
                            "Target entity was resolved on the before side; current graph lookup failed: "@
                                + ("entity id not found: "@ + one.entity.id),
                        ]
                    }
                } else {
                    impact == Err::<DiffImpactView, ErrorView>(
                        ErrorView {
                            kind: SemErrorKind::NotFound,
                            message: "entity id not found: "@ + one.entity.id,
                        },
                    )
                },
            }
        }),
{
    if let Some(one) = focus.target_entity {
        law_impact_is_about_the_target(hash, snapshot, target_of(one), request, answers);
    }
}

/// Of an entity whose id is in the graph no diff says that it is deleted; what a
/// diff calls deleted is the entity in focus, and the graph lacks its id.
pub proof fn law_only_what_the_graph_lacks_is_deleted<H: Fn(&str) -> String>(
    hash: H,
    focus: ResolutionView,
    snapshot: SnapshotView,
    file_paths: Seq<Seq<char>>,
    changes: Seq<FileChangeView>,
    target: FocusTargetView,
    request: SemImpactRequest,
    options: OptionsView,
    answers: AnswersView,
)
    ensures
        diff_impact(
            hash,
            focus,
            snapshot,
            file_paths,
            changes,
            target,
            request,
            options,
            answers,
        ) matches Ok(impact) ==> {
            &&& impact.deleted_entity matches Some(gone) ==> focus.target_entity == Some(gone)
                && gone.side == SemSide::Before && !snapshot.graph.entities.contains_key(
                gone.entity.id,
            )
            &&& impact.deleted_entity is None ==> impact.references.len() == 0
            &&& impact.repo_context is Some <==> (focus.target_entity matches Some(one)
                && snapshot.graph.entities.contains_key(one.entity.id))
        },
{
}

/// The impact of a diff in a repository is that on what is in focus in the diff,
/// by the graph that was built of the repository.
pub proof fn law_a_diff_in_a_repository_is_seen_by_its_graph<H: Fn(&str) -> String>(
    hash: H,
    root: Seq<char>,
    file_paths: Seq<Seq<char>>,
    changes: Seq<FileChangeView>,
    target: FocusTargetView,
    request: SemImpactRequest,
    options: OptionsView,
    registry: RegistryView,
    result: DiffResultView,
    graph: GraphView,
    entities: Seq<EntityView>,
    answers: AnswersView,
)
    ensures
        diff_impact_in_repo(
            hash,
            root,
            file_paths,
            changes,
            target,
            request,
            options,
            registry,
            result,
            graph,
            entities,
            answers,
        ) matches Ok(impact) ==> {
            let focus = focus_of(hash, changes, target, options, registry, result);
            &&& impact.focus == focus
            &&& focus.target_entity is None ==> impact.repo_context is None
                && impact.deleted_entity is None
            &&& focus.target_entity matches Some(one) ==> {
                &&& graph.entities.contains_key(one.entity.id) ==> impact.repo_context is Some
                    && is_answered(
                    impact.repo_context->0,
                    graph.entities[one.entity.id],
                    answers,
                )
                &&& !graph.entities.contains_key(one.entity.id) ==> impact.deleted_entity == Some(
                    one,
                ) && impact.references == references(
                    repo_snapshot(hash, root, file_paths, options, graph, entities),
                    one.entity.name,
                    request,
                )
            }
        },
{
    let focus = focus_of(hash, changes, target, options, registry, result);
    let snapshot = repo_snapshot(hash, root, file_paths, options, graph, entities);
    law_diff_impact_tells_what_became_of_the_entity(
        hash,
        focus,
        snapshot,
        file_paths,
        changes,
        target,
        request,
        options,
        answers,
    );
}

// ---------------------------------------------------------------------------
// References

/// Whether a character can be part of an identifier.
pub open spec fn is_word_char(c: char) -> bool {
    'a' <= c <= 'z' || 'A' <= c <= 'Z' || '0' <= c <= '9' || c == '_'
}

/// Whether a word stands in a text as an identifier of its own.
pub open spec fn holds_word(text: Seq<char>, word: Seq<char>) -> bool {
    &&& forall|k: int| 0 <= k < word.len() ==> is_word_char(#[trigger] word[k])
    &&& exists|i: int|
        {
            &&& 0 <= i <= text.len() - word.len()
            &&& #[trigger] text.subrange(i, i + word.len()) == word
            &&& i == 0 || !is_word_char(text[i - 1])
            &&& i + word.len() == text.len() || !is_word_char(text[i + word.len()])
        }
}

/// Whether an entity refers to a name: it has another name, its content holds
/// the name as a word, and the graph has it.
pub open spec fn refers_to_name(graph: GraphView, entity: EntityView, name: Seq<char>) -> bool {
    &&& entity.name != name
    &&& holds_word(entity.content, name)
    &&& graph.entities.contains_key(entity.id)
}

/// Whether a reference is that of an entity to a name.
pub open spec fn is_reference_of(
    reference: ReferenceView,
    graph: GraphView,
    entity: EntityView,
    name: Seq<char>,
) -> bool {
    &&& reference.entity == graph.entities[entity.id]
    &&& reference.snippet == mention_snippet(entity.content, name)
}

/// Whether a reference to a name is that of an entity that refers to it.
pub open spec fn is_made_by_one(
    snapshot: SnapshotView,
    reference: ReferenceView,
    name: Seq<char>,
) -> bool {
    exists|k: int|
        0 <= k < snapshot.entities.len() && refers_to_name(
            snapshot.graph,
            #[trigger] snapshot.entities[k],
            name,
        ) && is_reference_of(reference, snapshot.graph, snapshot.entities[k], name)
}

/// Whether an entity is listed before another: by its file, then by its id.
pub open spec fn is_listed_before(a: InfoView, b: InfoView) -> bool {
    text_before(a.file_path, b.file_path) || a.file_path == b.file_path && text_before(a.id, b.id)
}

/// The references to a name are those of entities that refer to it, sorted by
/// file and id. There are 32 of them at most for each level of the depth asked
/// for; where that is not enough for all, those that stand behind are left out.
pub proof fn law_references_are_those_who_mention_the_name(
    snapshot: SnapshotView,
    name: Seq<char>,
    request: SemImpactRequest,
)
    ensures
        ({
            let refs = references(snapshot, name, request);
            let most = if request.max_depth > 1 {
                request.max_depth * 32
            } else {
                32
            };
            &&& refs.len() <= most
            &&& forall|i: int|
                0 <= i < refs.len() ==> is_made_by_one(snapshot, #[trigger] refs[i], name)
            &&& forall|i: int, j: int|
                0 <= i < j < refs.len() ==> !is_listed_before(
                    (#[trigger] refs[j]).entity,
                    (#[trigger] refs[i]).entity,
                )
            &&& forall|k: int|
                0 <= k < snapshot.entities.len() && refers_to_name(
                    snapshot.graph,
                    #[trigger] snapshot.entities[k],
                    name,
                ) ==> is_given_or_behind(snapshot.graph, refs, snapshot.entities[k], name, most)
        }),
{
    broadcast use vstd::seq_lib::group_to_multiset_ensures;

    let graph = snapshot.graph;
    let wanted = mentions_name(graph, name);
    let make = reference_to(graph, name);
    let kept = snapshot.entities.filter(wanted);
    let made = kept.map_values(make);
    let all = all_references(snapshot, name);
    let refs = references(snapshot, name, request);
    let key = key_fn::<SemEntityReference>();
    let most = if request.max_depth > 1 {
        request.max_depth * 32
    } else {
        32
    };
    lemma_filter_contains(snapshot.entities, wanted);
    lemma_sorted_by(made, key);
    assert forall|entity: EntityView| wanted(entity) == #[trigger] refers_to_name(
        graph,
        entity,
        name,
    ) by {
        lemma_holds_word(entity.content, name);
    }
    assert forall|i: int| 0 <= i < refs.len() implies refs[i] == #[trigger] all[i] by {}
    assert forall|i: int| 0 <= i < refs.len() implies is_made_by_one(
        snapshot,
        #[trigger] refs[i],
        name,
    ) by {
        assert(all[i] == refs[i]);
        assert(all.to_multiset().contains(all[i]));
        assert(made.contains(all[i]));
        let m = choose|m: int| 0 <= m < made.len() && made[m] == all[i];
        assert(kept.contains(kept[m]));
        let k = choose|k: int| 0 <= k < snapshot.entities.len() && snapshot.entities[k] == kept[m];
        assert(wanted(snapshot.entities[k]));
        assert(refers_to_name(graph, snapshot.entities[k], name));
        assert(is_reference_of(refs[i], graph, snapshot.entities[k], name));
    }
    assert forall|i: int, j: int| 0 <= i < j < refs.len() implies !is_listed_before(
        (#[trigger] refs[j]).entity,
        (#[trigger] refs[i]).entity,
    ) by {
        assert(refs[i] == all[i] && refs[j] == all[j]);
        assert(!key_before(key(all[j]), key(all[i])));
        lemma_listed_before(all[j], all[i]);
    }
    assert forall|k: int|
        0 <= k < snapshot.entities.len() && refers_to_name(
            graph,
            #[trigger] snapshot.entities[k],
            name,
        ) implies is_given_or_behind(graph, refs, snapshot.entities[k], name, most) by {
        let entity = snapshot.entities[k];
        assert(snapshot.entities.contains(entity));
        assert(kept.contains(entity));
        let m = choose|m: int| 0 <= m < kept.len() && kept[m] == entity;
        assert(made[m] == make(entity));
        assert(made.to_multiset().contains(made[m]));
        assert(all.contains(make(entity)));
        let p = choose|p: int| 0 <= p < all.len() && all[p] == make(entity);
        if p < refs.len() {
            assert(refs[p] == all[p]);
            assert(is_reference_of(refs[p], graph, entity, name));
        } else {
            assert forall|i: int| 0 <= i < refs.len() implies !is_listed_before(
                graph.entities[entity.id],
                (#[trigger] refs[i]).entity,
            ) by {
                assert(refs[i] == all[i]);
                assert(!key_before(key(all[p]), key(all[i])));
                lemma_listed_before(all[p], all[i]);
            }
        }
    }
}

/// Whether the reference of an entity is given, or there are as many references
/// as may be and it stands before none of them.
pub open spec fn is_given_or_behind(
    graph: GraphView,
    refs: Seq<ReferenceView>,
    entity: EntityView,
    name: Seq<char>,
    most: int,
) -> bool {
    ||| exists|i: int|
        0 <= i < refs.len() && is_reference_of(#[trigger] refs[i], graph, entity, name)
    ||| refs.len() == most && forall|i: int|
        0 <= i < refs.len() ==> !is_listed_before(
            graph.entities[entity.id],
            (#[trigger] refs[i]).entity,
        )
}

proof fn lemma_listed_before(a: ReferenceView, b: ReferenceView)
    ensures
        is_listed_before(a.entity, b.entity) == key_before(
            key_fn::<SemEntityReference>()(a),
            key_fn::<SemEntityReference>()(b),
        ),
{
    if a.entity.file_path == b.entity.file_path {
        lemma_text_before_irreflexive(a.entity.file_path);
    }
}

/// A text has a word as one of its pieces just if the word stands there as an
/// identifier of its own.
pub proof fn lemma_holds_word(text: Seq<char>, word: Seq<char>)
    ensures
        has_piece(text, Separator::NonIdentifier, word) == holds_word(text, word),
{
    if has_piece(text, Separator::NonIdentifier, word) {
        let (i, j) = choose|i: int, j: int| #[trigger]
            is_piece(text, Separator::NonIdentifier, i, j) && text.subrange(i, j) == word;
        assert(j == i + word.len());
        assert(text.subrange(i, i + word.len()) == word);
        assert forall|k: int| 0 <= k < word.len() implies is_word_char(#[trigger] word[k]) by {
            assert(word[k] == text[i + k]);
        }
    }
    if holds_word(text, word) {
        let i = choose|i: int|
            {
                &&& 0 <= i <= text.len() - word.len()
                &&& #[trigger] text.subrange(i, i + word.len()) == word
                &&& i == 0 || !is_word_char(text[i - 1])
                &&& i + word.len() == text.len() || !is_word_char(text[i + word.len()])
            };
        let j = i + word.len();
        assert forall|k: int| i <= k < j implies is_word_char(#[trigger] text[k]) by {
            assert(text.subrange(i, j)[k - i] == text[k]);
            assert(is_word_char(word[k - i]));
        }
        assert(is_piece(text, Separator::NonIdentifier, i, j));
    }
}

/// How many entities refer to a name.
pub open spec fn referring(graph: GraphView, entities: Seq<EntityView>, name: Seq<char>) -> nat
    decreases entities.len(),
{
    if entities.len() == 0 {
        0
    } else {
        referring(graph, entities.drop_last(), name) + if refers_to_name(
            graph,
            entities.last(),
            name,
        ) {
            1nat
        } else {
            0
        }
    }
}

proof fn lemma_referring(graph: GraphView, entities: Seq<EntityView>, name: Seq<char>)
    ensures
        referring(graph, entities, name) == entities.filter(mentions_name(graph, name)).len(),
    decreases entities.len(),
{
    let wanted = mentions_name(graph, name);
    if entities.len() == 0 {
        reveal(Seq::filter);
    } else {
        let n = entities.len() - 1;
        lemma_referring(graph, entities.drop_last(), name);
        lemma_holds_word(entities.last().content, name);
        lemma_filter_step(entities, wanted, n);
        assert(entities.take(n) =~= entities.drop_last());
        assert(entities.take(n + 1) =~= entities);
    }
}

/// There are as many references as entities that refer to the name, or as many as
/// can be shown.
pub proof fn law_each_entity_that_refers_is_shown_once(
    snapshot: SnapshotView,
    name: Seq<char>,
    request: SemImpactRequest,
)
    ensures
        ({
            let count = referring(snapshot.graph, snapshot.entities, name);
            let most = if request.max_depth > 1 {
                request.max_depth * 32
            } else {
                32
            };
            references(snapshot, name, request).len() == if count <= most {
                count as int
            } else {
                most
            }
        }),
{
    broadcast use vstd::seq_lib::group_to_multiset_ensures;

    let kept = snapshot.entities.filter(mentions_name(snapshot.graph, name));
    let made = kept.map_values(reference_to(snapshot.graph, name));
    let all = all_references(snapshot, name);
    lemma_referring(snapshot.graph, snapshot.entities, name);
    lemma_sorted_by(made, key_fn::<SemEntityReference>());
    assert(all.to_multiset().len() == all.len());
    assert(made.to_multiset().len() == made.len());
}

// ---------------------------------------------------------------------------
// Snapshots

/// A snapshot holds the graph and the entities as they were built, and the paths
/// of its files in order, each as often as it was given. One of files in memory
/// has their paths, and a key that does not depend on where they were written.
pub proof fn law_a_snapshot_holds_what_was_built<H: Fn(&str) -> String>(
    hash: H,
    root: Seq<char>,
    file_paths: Seq<Seq<char>>,
    files: Seq<FileInputView>,
    options: OptionsView,
    graph: GraphView,
    entities: Seq<EntityView>,
)
    ensures
        ({
            let built = repo_snapshot(hash, root, file_paths, options, graph, entities);
            &&& built.api_version == "sem-embedded-v1"@
            &&& built.graph == graph
            &&& built.entities == entities
            &&& built.warnings.len() == 0
            &&& built.cache_key == repo_graph_key(hash, root, file_paths, options, entities)
            &&& built.file_paths.to_multiset() == file_paths.to_multiset()
            &&& forall|i: int, j: int|
                0 <= i < j < built.file_paths.len() ==> {
                    let a = #[trigger] built.file_paths[i];
                    let b = #[trigger] built.file_paths[j];
                    a == b || text_before(a, b)
                }
        }),
        ({
            let built = memory_snapshot(hash, files, options, graph, entities);
            let paths = files.map_values(|file: FileInputView| file.file_path);
            &&& built.api_version == "sem-embedded-v1"@
            &&& built.graph == graph
            &&& built.entities == entities
            &&& built.warnings.len() == 0
            &&& built.file_paths.to_multiset() == paths.to_multiset()
            &&& forall|i: int, j: int|
                0 <= i < j < built.file_paths.len() ==> {
                    let a = #[trigger] built.file_paths[i];
                    let b = #[trigger] built.file_paths[j];
                    a == b || text_before(a, b)
                }
        }),
{
    lemma_sorted_texts(file_paths);
    lemma_sorted_texts(paths_of_files(files));
    assert(paths_of_files(files) =~= files.map_values(|file: FileInputView| file.file_path));
}

} // verus!
