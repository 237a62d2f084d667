//! What holds of every analysis of a diff, and of every entity index.

use vstd::prelude::*;

use crate::analysis::{
    analysis_of, entities_after, entities_before, entity_index_of, entity_of_change, file_overlaps,
    has_content, hunk_overlaps, last_index_of_id, law_index_holds_the_entities_in_order,
    lemma_last_index_of_id, lemma_parsed_one, overlap_of, parsed_all, plain_change, range_of,
    touches,
};
use crate::model::{DiffResultView, EntityView, SemanticEntity};
use crate::order::{key_before, key_fn};
use crate::parses::{
    after_file, before_file, before_path, changed_contents, is_parse_of, parsed, registry_config,
    RegistryView,
};
use crate::seqs::{
    first_where, flattened, lemma_filter_contains, lemma_first_where_at, lemma_first_where_none,
    lemma_flattened_concat, lemma_flattened_contains,
};
use crate::text::{lemma_text_before_total, text_before};
use crate::types::{
    FileChangeView, FileInputView, HunkView, OptionsView, OverlapView, RangeView, SemLineRange,
};

verus! {

// ---------------------------------------------------------------------------
// The entities on either side

/// The entities in a content are those that were found when it was parsed: in
/// the first parse of this content under this path, and none without one.
pub proof fn law_a_content_holds_what_was_parsed(
    registry: RegistryView,
    path: Seq<char>,
    content: Seq<char>,
)
    ensures
        forall|k: int|
            0 <= k < registry.parses.len() && (#[trigger] registry.parses[k]).file_path == path
                && registry.parses[k].content == content && (forall|j: int|
                0 <= j < k ==> (#[trigger] registry.parses[j]).file_path != path
                    || registry.parses[j].content != content) ==> parsed(registry, path, content)
                == registry.parses[k].entities,
        (forall|k: int|
            0 <= k < registry.parses.len() ==> (#[trigger] registry.parses[k]).file_path != path
                || registry.parses[k].content != content) ==> parsed(
            registry,
            path,
            content,
        ).len() == 0,
{
    let wanted = is_parse_of(path, content);
    assert forall|k: int|
        0 <= k < registry.parses.len() && (#[trigger] registry.parses[k]).file_path == path
            && registry.parses[k].content == content && (forall|j: int|
            0 <= j < k ==> (#[trigger] registry.parses[j]).file_path != path
                || registry.parses[j].content != content) implies parsed(registry, path, content)
        == registry.parses[k].entities by {
        lemma_first_where_at(registry.parses, wanted, k);
    }
    if forall|k: int|
        0 <= k < registry.parses.len() ==> (#[trigger] registry.parses[k]).file_path != path
            || registry.parses[k].content != content {
        lemma_first_where_none(registry.parses, wanted);
    }
}

/// The entities after a set of changes are those in the contents after each,
/// under its path; those before are those in the contents before each, under
/// the path that the file had then.
pub proof fn law_entities_stand_in_the_contents_of_their_side(
    registry: RegistryView,
    changes: Seq<FileChangeView>,
    entity: EntityView,
)
    ensures
        entities_after(registry, changes).contains(entity) <==> exists|i: int|
            0 <= i < changes.len() && ((#[trigger] changes[i]).after_content matches Some(content)
                && parsed(registry, changes[i].file_path, content).contains(entity)),
        entities_before(registry, changes).contains(entity) <==> exists|i: int|
            0 <= i < changes.len() && ((#[trigger] changes[i]).before_content matches Some(content)
                && parsed(
                registry,
                match changes[i].old_file_path {
                    Some(path) => path,
                    None => changes[i].file_path,
                },
                content,
            ).contains(entity)),
{
    let afters = changes.map_values(
        |change: FileChangeView| parsed_all(registry, after_file(change)),
    );
    let befores = changes.map_values(
        |change: FileChangeView| parsed_all(registry, before_file(change)),
    );
    lemma_flattened_contains(afters, entity);
    lemma_flattened_contains(befores, entity);
    assert forall|i: int| 0 <= i < changes.len() implies {
        &&& (#[trigger] changes[i]).after_content matches Some(content) ==> afters[i] == parsed(
            registry,
            changes[i].file_path,
            content,
        )
        &&& changes[i].after_content is None ==> afters[i].len() == 0
        &&& changes[i].before_content matches Some(content) ==> befores[i] == parsed(
            registry,
            before_path(changes[i]),
            content,
        )
        &&& changes[i].before_content is None ==> befores[i].len() == 0
    } by {
        lemma_parsed_one(registry, after_file(changes[i]));
        lemma_parsed_one(registry, before_file(changes[i]));
    }
    if exists|i: int| 0 <= i < afters.len() && (#[trigger] afters[i]).contains(entity) {
        let i = choose|i: int| 0 <= i < afters.len() && (#[trigger] afters[i]).contains(entity);
        assert(changes[i].after_content is Some);
    }
    if exists|i: int| 0 <= i < befores.len() && (#[trigger] befores[i]).contains(entity) {
        let i = choose|i: int| 0 <= i < befores.len() && (#[trigger] befores[i]).contains(entity);
        assert(changes[i].before_content is Some);
    }
    if exists|i: int|
        0 <= i < changes.len() && ((#[trigger] changes[i]).after_content matches Some(content)
            && parsed(registry, changes[i].file_path, content).contains(entity)) {
        let i = choose|i: int|
            0 <= i < changes.len() && ((#[trigger] changes[i]).after_content matches Some(content)
                && parsed(registry, changes[i].file_path, content).contains(entity));
        assert(afters[i].contains(entity));
    }
    if exists|i: int|
        0 <= i < changes.len() && ((#[trigger] changes[i]).before_content matches Some(content)
            && parsed(registry, before_path(changes[i]), content).contains(entity)) {
        let i = choose|i: int|
            0 <= i < changes.len() && ((#[trigger] changes[i]).before_content matches Some(content)
                && parsed(registry, before_path(changes[i]), content).contains(entity));
        assert(befores[i].contains(entity));
    }
}

/// The entities of more changes stand behind those of the changes before them,
/// and those of one change as they were parsed.
pub proof fn law_entities_follow_the_order_of_changes(
    registry: RegistryView,
    changes: Seq<FileChangeView>,
    more: Seq<FileChangeView>,
    change: FileChangeView,
)
    ensures
        entities_after(registry, changes + more) == entities_after(registry, changes)
            + entities_after(registry, more),
        entities_before(registry, changes + more) == entities_before(registry, changes)
            + entities_before(registry, more),
        entities_after(registry, seq![change]) == match change.after_content {
            Some(content) => parsed(registry, change.file_path, content),
            None => Seq::empty(),
        },
        entities_before(registry, seq![change]) == match change.before_content {
            Some(content) => parsed(
                registry,
                match change.old_file_path {
                    Some(path) => path,
                    None => change.file_path,
                },
                content,
            ),
            None => Seq::empty(),
        },
{
    let on_after = |change: FileChangeView| parsed_all(registry, after_file(change));
    let on_before = |change: FileChangeView| parsed_all(registry, before_file(change));
    lemma_flattened_concat(changes.map_values(on_after), more.map_values(on_after));
    lemma_flattened_concat(changes.map_values(on_before), more.map_values(on_before));
    assert((changes + more).map_values(on_after) =~= changes.map_values(on_after)
        + more.map_values(on_after));
    assert((changes + more).map_values(on_before) =~= changes.map_values(on_before)
        + more.map_values(on_before));
    let one = seq![change];
    lemma_parsed_one(registry, after_file(change));
    lemma_parsed_one(registry, before_file(change));
    lemma_flattened_one(one.map_values(on_after));
    lemma_flattened_one(one.map_values(on_before));
}

proof fn lemma_flattened_one<T>(s: Seq<Seq<T>>)
    requires
        s.len() == 1,
    ensures
        flattened(s) == s[0],
{
    assert(s.drop_last() =~= Seq::empty());
    assert(flattened(s.drop_last()) =~= Seq::empty());
    assert(flattened(s) =~= s[0]);
}

// ---------------------------------------------------------------------------
// Where changes stand

/// Whether a place is that of an entity.
pub open spec fn is_place_of(place: Option<RangeView>, entity: EntityView) -> bool {
    place matches Some(range) && range.file_path == entity.file_path && range.start_line
        == entity.start_line && range.end_line == entity.end_line
}

/// Whether an entity with a content stands at a position, and none before it.
/// With a path it is sought in that file only, with a type and a name only under
/// these.
pub open spec fn first_with_content(
    entities: Seq<EntityView>,
    k: int,
    content: Seq<char>,
    path: Option<Seq<char>>,
    kind: Option<(Seq<char>, Seq<char>)>,
) -> bool {
    &&& 0 <= k < entities.len()
    &&& fits(entities[k], content, path, kind)
    &&& forall|j: int| 0 <= j < k ==> !fits(#[trigger] entities[j], content, path, kind)
}

/// Whether an entity has a content and, where they are given, a path, and a type
/// and a name.
pub open spec fn fits(
    entity: EntityView,
    content: Seq<char>,
    path: Option<Seq<char>>,
    kind: Option<(Seq<char>, Seq<char>)>,
) -> bool {
    entity.content == content && (path is Some ==> Some(entity.file_path) == path) && (kind is Some
        ==> Some((entity.entity_type, entity.name)) == kind)
}

/// Whether no entity fits.
pub open spec fn none_fits(
    entities: Seq<EntityView>,
    content: Seq<char>,
    path: Option<Seq<char>>,
    kind: Option<(Seq<char>, Seq<char>)>,
) -> bool {
    forall|j: int| 0 <= j < entities.len() ==> !fits(#[trigger] entities[j], content, path, kind)
}

/// Whether a place is where an entity stands that is sought by its id and, where
/// no entity has the id, by its content: at its path under its type and name, or
/// else at its path, or else anywhere.
pub open spec fn is_sought_place(
    place: Option<RangeView>,
    entities: Seq<EntityView>,
    id: Seq<char>,
    path: Seq<char>,
    kind: (Seq<char>, Seq<char>),
    content: Option<Seq<char>>,
) -> bool {
    &&& forall|k: int|
        0 <= k < entities.len() && (#[trigger] entities[k]).id == id && (forall|m: int|
            k < m < entities.len() ==> (#[trigger] entities[m]).id != id) ==> is_place_of(
            place,
            entities[k],
        )
    &&& (forall|k: int| 0 <= k < entities.len() ==> (#[trigger] entities[k]).id != id) ==> {
        match content {
            None => place is None,
            Some(content) => {
                &&& forall|k: int|
                    #![trigger entities[k]]
                    first_with_content(entities, k, content, Some(path), Some(kind)) ==> is_place_of(
                        place,
                        entities[k],
                    )
                &&& none_fits(entities, content, Some(path), Some(kind)) ==> {
                    &&& forall|k: int|
                        #![trigger entities[k]]
                        first_with_content(entities, k, content, Some(path), None) ==> is_place_of(
                            place,
                            entities[k],
                        )
                    &&& none_fits(entities, content, Some(path), None) ==> {
                        &&& forall|k: int|
                            #![trigger entities[k]]
                            first_with_content(entities, k, content, None, None) ==> is_place_of(
                                place,
                                entities[k],
                            )
                        &&& none_fits(entities, content, None, None) ==> place is None
                    }
                }
            },
        }
    }
}

proof fn lemma_last_index_is(entities: Seq<EntityView>, id: Seq<char>, k: int)
    requires
        0 <= k < entities.len(),
        entities[k].id == id,
        forall|m: int| k < m < entities.len() ==> (#[trigger] entities[m]).id != id,
    ensures
        last_index_of_id(entities, id) == Some(k),
    decreases entities.len(),
{
    let n = entities.len() - 1;
    if k < n {
        assert(entities[n].id != id);
        let front = entities.drop_last();
        assert forall|m: int| k < m < front.len() implies (#[trigger] front[m]).id != id by {
            assert(entities[m].id != id);
        }
        lemma_last_index_is(front, id, k);
    }
}

proof fn lemma_sought_place(
    entities: Seq<EntityView>,
    id: Seq<char>,
    path: Seq<char>,
    kind: (Seq<char>, Seq<char>),
    content: Option<Seq<char>>,
)
    ensures
        is_sought_place(
            match entity_of_change(entities, id, path, kind.0, kind.1, content) {
                Some(entity) => Some(range_of(entity)),
                None => None,
            },
            entities,
            id,
            path,
            kind,
            content,
        ),
{
    let place = match entity_of_change(entities, id, path, kind.0, kind.1, content) {
        Some(entity) => Some(range_of(entity)),
        None => None,
    };
    assert forall|k: int|
        0 <= k < entities.len() && (#[trigger] entities[k]).id == id && (forall|m: int|
            k < m < entities.len() ==> (#[trigger] entities[m]).id != id) implies is_place_of(
        place,
        entities[k],
    ) by {
        lemma_last_index_is(entities, id, k);
    }
    if forall|k: int| 0 <= k < entities.len() ==> (#[trigger] entities[k]).id != id {
        lemma_last_index_of_id(entities, id);
        if let Some(content) = content {
            let same = has_content(content, Some(path), Some(kind));
            let near = has_content(content, Some(path), None);
            let any = has_content(content, None, None);
            lemma_first_fit(entities, content, Some(path), Some(kind));
            lemma_first_fit(entities, content, Some(path), None);
            lemma_first_fit(entities, content, None, None);
            assert(Some(kind) == Some((kind.0, kind.1)));
        }
    }
}

proof fn lemma_first_fit(
    entities: Seq<EntityView>,
    content: Seq<char>,
    path: Option<Seq<char>>,
    kind: Option<(Seq<char>, Seq<char>)>,
)
    ensures
        forall|k: int|
            #![trigger entities[k]]
            first_with_content(entities, k, content, path, kind) ==> first_where(
                entities,
                has_content(content, path, kind),
            ) == Some(entities[k]),
        none_fits(entities, content, path, kind) ==> first_where(
            entities,
            has_content(content, path, kind),
        ) is None,
{
    let wanted = has_content(content, path, kind);
    assert forall|e: EntityView| wanted(e) == #[trigger] fits(e, content, path, kind) by {}
    assert forall|k: int|
        #![trigger entities[k]]
        first_with_content(entities, k, content, path, kind) implies first_where(entities, wanted)
        == Some(entities[k]) by {
        assert forall|j: int| 0 <= j < k implies !wanted(#[trigger] entities[j]) by {
            assert(!fits(entities[j], content, path, kind));
        }
        lemma_first_where_at(entities, wanted, k);
    }
    if none_fits(entities, content, path, kind) {
        assert forall|j: int| 0 <= j < entities.len() implies !wanted(#[trigger] entities[j]) by {
            assert(!fits(entities[j], content, path, kind));
        }
        lemma_first_where_none(entities, wanted);
    }
}

/// A reported change stands where its entity does: before the change among the
/// entities before it, under the names it had then, and after the change among
/// those after it.
pub proof fn law_a_change_stands_where_its_entity_does<H: Fn(&str) -> String>(
    hash: H,
    changes: Seq<FileChangeView>,
    options: OptionsView,
    registry: RegistryView,
    result: DiffResultView,
    i: int,
)
    requires
        0 <= i < result.changes.len(),
    ensures
        ({
            let change = result.changes[i];
            let shown = analysis_of(hash, changes, options, registry, result).changes[i];
            &&& shown.change == change
            &&& is_sought_place(
                shown.after_range,
                entities_after(registry, changes),
                change.entity_id,
                change.file_path,
                (change.entity_type, change.entity_name),
                change.after_content,
            )
            &&& is_sought_place(
                shown.before_range,
                entities_before(registry, changes),
                change.entity_id,
                match change.old_file_path {
                    Some(path) => path,
                    None => change.file_path,
                },
                (
                    change.entity_type,
                    match change.old_entity_name {
                        Some(name) => name,
                        None => change.entity_name,
                    },
                ),
                change.before_content,
            )
        }),
{
    let change = result.changes[i];
    lemma_sought_place(
        entities_after(registry, changes),
        change.entity_id,
        change.file_path,
        (change.entity_type, change.entity_name),
        change.after_content,
    );
    lemma_sought_place(
        entities_before(registry, changes),
        change.entity_id,
        match change.old_file_path {
            Some(path) => path,
            None => change.file_path,
        },
        (
            change.entity_type,
            match change.old_entity_name {
                Some(name) => name,
                None => change.entity_name,
            },
        ),
        change.before_content,
    );
}

/// Where an entity with the id of a change stands on a side, the change has a
/// place on that side: that of such an entity. So an added entity has a place
/// after the change, and a deleted one a place before it.
pub proof fn law_a_change_of_a_known_entity_has_its_place<H: Fn(&str) -> String>(
    hash: H,
    changes: Seq<FileChangeView>,
    options: OptionsView,
    registry: RegistryView,
    result: DiffResultView,
    i: int,
)
    requires
        0 <= i < result.changes.len(),
    ensures
        ({
            let id = result.changes[i].entity_id;
            let shown = analysis_of(hash, changes, options, registry, result).changes[i];
            let before = entities_before(registry, changes);
            let after = entities_after(registry, changes);
            &&& (exists|k: int| 0 <= k < after.len() && (#[trigger] after[k]).id == id)
                ==> exists|k: int|
                0 <= k < after.len() && (#[trigger] after[k]).id == id && is_place_of(
                    shown.after_range,
                    after[k],
                )
            &&& (exists|k: int| 0 <= k < before.len() && (#[trigger] before[k]).id == id)
                ==> exists|k: int|
                0 <= k < before.len() && (#[trigger] before[k]).id == id && is_place_of(
                    shown.before_range,
                    before[k],
                )
        }),
{
    let id = result.changes[i].entity_id;
    let shown = analysis_of(hash, changes, options, registry, result).changes[i];
    let before = entities_before(registry, changes);
    let after = entities_after(registry, changes);
    law_a_change_stands_where_its_entity_does(hash, changes, options, registry, result, i);
    if exists|k: int| 0 <= k < after.len() && (#[trigger] after[k]).id == id {
        let k = lemma_last_with_id(after, id);
        assert(is_place_of(shown.after_range, after[k]));
    }
    if exists|k: int| 0 <= k < before.len() && (#[trigger] before[k]).id == id {
        let k = lemma_last_with_id(before, id);
        assert(is_place_of(shown.before_range, before[k]));
    }
}

proof fn lemma_last_with_id(entities: Seq<EntityView>, id: Seq<char>) -> (k: int)
    requires
        exists|k: int| 0 <= k < entities.len() && (#[trigger] entities[k]).id == id,
    ensures
        0 <= k < entities.len(),
        entities[k].id == id,
        forall|m: int| k < m < entities.len() ==> (#[trigger] entities[m]).id != id,
    decreases entities.len(),
{
    let n = entities.len() - 1;
    if entities[n].id == id {
        n
    } else {
        let front = entities.drop_last();
        let j = choose|j: int| 0 <= j < entities.len() && (#[trigger] entities[j]).id == id;
        assert(front[j].id == id);
        let k = lemma_last_with_id(front, id);
        assert forall|m: int| k < m < entities.len() implies (#[trigger] entities[m]).id != id by {
            if m < n {
                assert(front[m].id != id);
            }
        }
        k
    }
}

// ---------------------------------------------------------------------------
// Hunks

/// Whether a hunk of a file touches a place: the place is in the file, and they
/// have a line in common. Line zero is no line.
pub open spec fn touches_place(
    place: Option<RangeView>,
    path: Seq<char>,
    lines: Option<SemLineRange>,
) -> bool {
    match (place, lines) {
        (Some(place), Some(lines)) => {
            &&& place.file_path == path
            &&& place.start_line >= 1 && place.end_line >= 1
            &&& lines.start_line >= 1 && lines.end_line >= 1
            &&& place.start_line <= lines.end_line && lines.start_line <= place.end_line
        },
        _ => false,
    }
}

/// Whether an overlap is that of a hunk of a changed file with two places.
pub open spec fn is_overlap_of(
    overlap: OverlapView,
    change: FileChangeView,
    hunk: HunkView,
    before: Option<RangeView>,
    after: Option<RangeView>,
) -> bool {
    &&& overlap.hunk_id == hunk.hunk_id
    &&& overlap.hunk_index == hunk.hunk_index
    &&& overlap.hunk_header == hunk.hunk_header
    &&& overlap.file_path == change.file_path
    &&& overlap.old_file_path == change.old_file_path
    &&& overlap.old_range == hunk.old_range
    &&& overlap.new_range == hunk.new_range
    &&& overlap.overlaps_after == touches_place(after, change.file_path, hunk.new_range)
    &&& overlap.overlaps_before == touches_place(
        before,
        match change.old_file_path {
            Some(path) => path,
            None => change.file_path,
        },
        hunk.old_range,
    )
}

/// The hunks that are reported for a change are those that touch its entity: by
/// their old lines where it stood before, or by their new lines where it stands
/// after.
pub proof fn law_a_change_reports_the_hunks_that_touch_it<H: Fn(&str) -> String>(
    hash: H,
    changes: Seq<FileChangeView>,
    options: OptionsView,
    registry: RegistryView,
    result: DiffResultView,
    i: int,
    overlap: OverlapView,
)
    requires
        0 <= i < result.changes.len(),
    ensures
        ({
            let shown = analysis_of(hash, changes, options, registry, result).changes[i];
            shown.hunk_overlaps.contains(overlap) <==> (overlap.overlaps_before
                || overlap.overlaps_after) && exists|f: int, h: int|
                0 <= f < changes.len() && 0 <= h < changes[f].hunks.len() && is_overlap_of(
                    overlap,
                    #[trigger] changes[f],
                    #[trigger] changes[f].hunks[h],
                    shown.before_range,
                    shown.after_range,
                )
        }),
{
    let shown = analysis_of(hash, changes, options, registry, result).changes[i];
    let before = shown.before_range;
    let after = shown.after_range;
    let lists = changes.map_values(
        |change: FileChangeView| file_overlaps(change, before, after),
    );
    lemma_flattened_contains(lists, overlap);
    if shown.hunk_overlaps.contains(overlap) {
        let f = choose|f: int| 0 <= f < lists.len() && (#[trigger] lists[f]).contains(overlap);
        let made = changes[f].hunks.map_values(overlap_of(changes[f], before, after));
        lemma_filter_contains(made, touches());
        let h = choose|h: int| 0 <= h < made.len() && made[h] == overlap;
        assert(is_overlap_of(overlap, changes[f], changes[f].hunks[h], before, after));
    }
    if (overlap.overlaps_before || overlap.overlaps_after) && exists|f: int, h: int|
        0 <= f < changes.len() && 0 <= h < changes[f].hunks.len() && is_overlap_of(
            overlap,
            #[trigger] changes[f],
            #[trigger] changes[f].hunks[h],
            before,
            after,
        ) {
        let (f, h) = choose|f: int, h: int|
            0 <= f < changes.len() && 0 <= h < changes[f].hunks.len() && is_overlap_of(
                overlap,
                #[trigger] changes[f],
                #[trigger] changes[f].hunks[h],
                before,
                after,
            );
        let made = changes[f].hunks.map_values(overlap_of(changes[f], before, after));
        lemma_filter_contains(made, touches());
        assert(made[h] == overlap);
        assert(made.contains(overlap));
        assert(lists[f].contains(overlap));
    }
}

/// Hunks are reported in the order of the files and, in a file, in its order:
/// one hunk more adds one report at the end if it touches the entity, and none
/// otherwise.
pub proof fn law_hunks_are_reported_in_order(
    changes: Seq<FileChangeView>,
    more: Seq<FileChangeView>,
    change: FileChangeView,
    hunk: HunkView,
    before: Option<RangeView>,
    after: Option<RangeView>,
)
    ensures
        hunk_overlaps(changes + more, before, after) == hunk_overlaps(changes, before, after)
            + hunk_overlaps(more, before, after),
        change.hunks.len() == 0 ==> hunk_overlaps(seq![change], before, after).len() == 0,
        ({
            let fewer = hunk_overlaps(seq![change], before, after);
            let all = hunk_overlaps(
                seq![FileChangeView { hunks: change.hunks.push(hunk), ..change }],
                before,
                after,
            );
            let old_path = match change.old_file_path {
                Some(path) => path,
                None => change.file_path,
            };
            if touches_place(before, old_path, hunk.old_range) || touches_place(
                after,
                change.file_path,
                hunk.new_range,
            ) {
                &&& all.len() == fewer.len() + 1
                &&& all.drop_last() == fewer
                &&& is_overlap_of(all.last(), change, hunk, before, after)
            } else {
                all == fewer
            }
        }),
{
    let f = |change: FileChangeView| file_overlaps(change, before, after);
    lemma_flattened_concat(changes.map_values(f), more.map_values(f));
    assert((changes + more).map_values(f) =~= changes.map_values(f) + more.map_values(f));
    let longer = FileChangeView { hunks: change.hunks.push(hunk), ..change };
    lemma_flattened_one(seq![change].map_values(f));
    lemma_flattened_one(seq![longer].map_values(f));
    let make = overlap_of(change, before, after);
    let made = change.hunks.map_values(make);
    let made_longer = longer.hunks.map_values(overlap_of(longer, before, after));
    assert(made_longer =~= made.push(make(hunk)));
    reveal(Seq::filter);
    assert(made_longer.drop_last() =~= made);
    let fewer = hunk_overlaps(seq![change], before, after);
    let all = hunk_overlaps(seq![longer], before, after);
    assert(is_overlap_of(make(hunk), change, hunk, before, after));
    if touches()(make(hunk)) {
        assert(all =~= fewer.push(make(hunk)));
        assert(all.drop_last() =~= fewer);
    }
}

// ---------------------------------------------------------------------------
// What is handed on

/// An analysis gives the counts of the differ, and a changed file is handed to
/// it as it is, without its hunks.
pub proof fn law_an_analysis_gives_the_counts_of_the_differ<H: Fn(&str) -> String>(
    hash: H,
    changes: Seq<FileChangeView>,
    options: OptionsView,
    registry: RegistryView,
    result: DiffResultView,
    change: FileChangeView,
)
    ensures
        ({
            let analysis = analysis_of(hash, changes, options, registry, result);
            &&& analysis.api_version == "sem-embedded-v1"@
            &&& analysis.changes.len() == result.changes.len()
            &&& analysis.summary.file_count == result.file_count
            &&& analysis.summary.added_count == result.added_count
            &&& analysis.summary.modified_count == result.modified_count
            &&& analysis.summary.deleted_count == result.deleted_count
            &&& analysis.summary.moved_count == result.moved_count
            &&& analysis.summary.renamed_count == result.renamed_count
            &&& analysis.summary.reordered_count == result.reordered_count
            &&& analysis.summary.orphan_count == result.orphan_count
        }),
        plain_change(change).file_path == change.file_path,
        plain_change(change).status == change.status,
        plain_change(change).old_file_path == change.old_file_path,
        plain_change(change).before_content == change.before_content,
        plain_change(change).after_content == change.after_content,
{
}

// ---------------------------------------------------------------------------
// Indexes

/// An index holds just the entities in the contents of its files, sorted by
/// file, then by their first lines, then by id.
pub proof fn law_an_index_lists_its_files_in_order<H: Fn(&str) -> String>(
    hash: H,
    files: Seq<FileInputView>,
    options: OptionsView,
    registry: RegistryView,
)
    ensures
        ({
            let entities = entity_index_of(hash, files, options, registry).entities;
            &&& forall|entity: EntityView| #[trigger]
                entities.contains(entity) <==> exists|i: int|
                    0 <= i < files.len() && parsed(
                        registry,
                        (#[trigger] files[i]).file_path,
                        files[i].content,
                    ).contains(entity)
            &&& forall|i: int, j: int|
                0 <= i < j < entities.len() ==> {
                    let a = #[trigger] entities[i];
                    let b = #[trigger] entities[j];
                    ||| text_before(a.file_path, b.file_path)
                    ||| a.file_path == b.file_path && a.start_line < b.start_line
                    ||| a.file_path == b.file_path && a.start_line == b.start_line && (a.id == b.id
                        || text_before(a.id, b.id))
                }
        }),
{
    broadcast use vstd::seq_lib::group_to_multiset_ensures;

    let entities = entity_index_of(hash, files, options, registry).entities;
    let all = parsed_all(registry, files);
    let lists = files.map_values(
        |file: FileInputView| parsed(registry, file.file_path, file.content),
    );
    law_index_holds_the_entities_in_order(hash, files, options, registry);
    assert forall|entity: EntityView| #[trigger] entities.contains(entity) <==> exists|i: int|
        0 <= i < files.len() && parsed(
            registry,
            (#[trigger] files[i]).file_path,
            files[i].content,
        ).contains(entity) by {
        lemma_flattened_contains(lists, entity);
        assert(entities.contains(entity) <==> entities.to_multiset().contains(entity));
        assert(all.contains(entity) <==> all.to_multiset().contains(entity));
        if exists|i: int| 0 <= i < lists.len() && (#[trigger] lists[i]).contains(entity) {
            let i = choose|i: int| 0 <= i < lists.len() && (#[trigger] lists[i]).contains(entity);
            assert(parsed(registry, files[i].file_path, files[i].content).contains(entity));
        }
        if exists|i: int|
            0 <= i < files.len() && parsed(
                registry,
                (#[trigger] files[i]).file_path,
                files[i].content,
            ).contains(entity) {
            let i = choose|i: int|
                0 <= i < files.len() && parsed(
                    registry,
                    (#[trigger] files[i]).file_path,
                    files[i].content,
                ).contains(entity);
            assert(lists[i].contains(entity));
        }
    }
    let key = key_fn::<SemanticEntity>();
    assert forall|i: int, j: int| 0 <= i < j < entities.len() implies {
        let a = #[trigger] entities[i];
        let b = #[trigger] entities[j];
        ||| text_before(a.file_path, b.file_path)
        ||| a.file_path == b.file_path && a.start_line < b.start_line
        ||| a.file_path == b.file_path && a.start_line == b.start_line && (a.id == b.id
            || text_before(a.id, b.id))
    } by {
        let a = entities[i];
        let b = entities[j];
        assert(!key_before(key(b), key(a)));
        lemma_text_before_total(a.file_path, b.file_path);
        lemma_text_before_total(a.id, b.id);
    }
}

// ---------------------------------------------------------------------------
// What is parsed, and how parsers are set up

/// Whether a change brings a content under a path: what the file held before
/// under the path it had then, or what it holds now under its path.
pub open spec fn brings(change: FileChangeView, file: FileInputView) -> bool {
    ||| change.before_content == Some(file.content) && file.file_path == match change.old_file_path {
        Some(old) => old,
        None => change.file_path,
    }
    ||| change.after_content == Some(file.content) && file.file_path == change.file_path
}

/// The contents that have to be parsed are just those that some change brings.
pub proof fn law_the_contents_of_changes_are_parsed(
    changes: Seq<FileChangeView>,
    file: FileInputView,
)
    ensures
        changed_contents(changes).contains(file) <==> exists|i: int|
            0 <= i < changes.len() && brings(#[trigger] changes[i], file),
{
    let all = changes.map_values(|change: FileChangeView| before_file(change) + after_file(change));
    lemma_flattened_contains(all, file);
    if flattened(all).contains(file) {
        let i = choose|i: int| 0 <= i < all.len() && (#[trigger] all[i]).contains(file);
        let k = choose|k: int| 0 <= k < all[i].len() && all[i][k] == file;
        assert(brings(changes[i], file));
    }
    if exists|i: int| 0 <= i < changes.len() && brings(#[trigger] changes[i], file) {
        let i = choose|i: int| 0 <= i < changes.len() && brings(#[trigger] changes[i], file);
        let before = before_file(changes[i]);
        let after = after_file(changes[i]);
        if before.len() > 0 && before[0] == file {
            assert(all[i][0] == file);
        } else {
            assert(after[0] == file);
            assert(all[i][before.len() as int] == file);
        }
        assert(all[i].contains(file));
    }
}

/// Each kind of configuration is loaded just if the options ask for it and there
/// is a root: that of the options or, where they name none, the fallback.
pub proof fn law_configuration_is_loaded_where_asked_for(
    options: OptionsView,
    fallback_root: Option<Seq<char>>,
    root: Seq<char>,
)
    ensures
        ({
            let config = registry_config(options, fallback_root);
            let is_root = options.root == Some(root) || options.root is None && fallback_root
                == Some(root);
            &&& config.semrc_root == Some(root) <==> options.load_semrc && is_root
            &&& config.gitattributes_root == Some(root) <==> options.load_gitattributes && is_root
        }),
{
}

} // verus!
