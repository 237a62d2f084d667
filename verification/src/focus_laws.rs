//! What holds of every resolved focus target.

use vstd::prelude::*;

use crate::analysis::{analysis_of, entities_after, entities_before};
use crate::analysis_laws::touches_place;
use crate::focus::{
    entities_in_focus, focus_candidates, focus_of, focused, has_focus, hunk_entities, hunk_lines,
    hunk_path, in_focus, is_hunk_in_focus, is_target, law_entities_in_focus_are_in_order,
    law_focus_holds_what_was_found, lemma_without_repeats, located, meets, on_side, reach,
    same_focus, spans, touched_by_focus, widest, without_repeats,
};
use crate::keys::focus_key;
use crate::model::{DiffResultView, EntityView};
use crate::order::{in_order, key_before, key_fn, lemma_sorted_by, sorted_by};
use crate::parses::RegistryView;
use crate::seqs::{
    first_where, lemma_filter_contains, lemma_first_where_at, lemma_first_where_none,
};
use crate::text::{lemma_text_before_irreflexive, lemma_text_before_total, text_before};
use crate::types::{
    EmbeddedChangeView, FileChangeView, FocusTargetView, FocusedView, HunkTargetView,
    LocationView, OptionsView, RangeView, SemFocusedEntity, SemSide, TargetView,
};

verus! {

// ---------------------------------------------------------------------------
// Entities in focus

/// Whether an entity on a side is looked at: it holds the line of the location,
/// or the hunk touches it there.
pub open spec fn is_looked_at(target: FocusTargetView, entity: EntityView, side: SemSide) -> bool {
    ||| target.location matches Some(location) && {
        &&& location.side == side
        &&& location.file_path == entity.file_path
        &&& entity.start_line <= location.line <= entity.end_line
    }
    ||| target.hunk matches Some(hunk) && {
        &&& hunk.side == side
        &&& touches_place(
            Some(
                RangeView {
                    file_path: entity.file_path,
                    start_line: entity.start_line,
                    end_line: entity.end_line,
                },
            ),
            match (side, hunk.old_file_path) {
                (SemSide::Before, Some(path)) => path,
                _ => hunk.file_path,
            },
            match side {
                SemSide::Before => hunk.old_range,
                SemSide::After => hunk.new_range,
            },
        )
    }
}

/// The entities in focus are those that are looked at: each stands on its side
/// of the diff and is shown where it stands there, and of each that is looked at
/// one with its id is shown.
pub proof fn law_focus_shows_what_is_looked_at<H: Fn(&str) -> String>(
    hash: H,
    changes: Seq<FileChangeView>,
    target: FocusTargetView,
    options: OptionsView,
    registry: RegistryView,
    result: DiffResultView,
)
    ensures
        ({
            let shown = focus_of(
                hash,
                changes,
                target,
                options,
                registry,
                result,
            ).overlapping_entities;
            let before = entities_before(registry, changes);
            let after = entities_after(registry, changes);
            &&& forall|i: int|
                0 <= i < shown.len() ==> {
                    let one = #[trigger] shown[i];
                    &&& is_looked_at(target, one.entity, one.side)
                    &&& one.side == SemSide::Before ==> before.contains(one.entity)
                    &&& one.side == SemSide::After ==> after.contains(one.entity)
                    &&& one.range.file_path == one.entity.file_path
                    &&& one.range.start_line == one.entity.start_line
                    &&& one.range.end_line == one.entity.end_line
                }
            &&& forall|k: int|
                0 <= k < before.len() && is_looked_at(
                    target,
                    #[trigger] before[k],
                    SemSide::Before,
                ) ==> exists|i: int|
                    0 <= i < shown.len() && (#[trigger] shown[i]).side == SemSide::Before
                        && shown[i].entity.id == before[k].id
            &&& forall|k: int|
                0 <= k < after.len() && is_looked_at(
                    target,
                    #[trigger] after[k],
                    SemSide::After,
                ) ==> exists|i: int|
                    0 <= i < shown.len() && (#[trigger] shown[i]).side == SemSide::After
                        && shown[i].entity.id == after[k].id
        }),
{
    let before = entities_before(registry, changes);
    let after = entities_after(registry, changes);
    let shown = focus_of(hash, changes, target, options, registry, result).overlapping_entities;
    let found = focus_candidates(target, before, after);
    law_focus_holds_what_was_found(target, before, after);
    assert forall|i: int| 0 <= i < shown.len() implies {
        let one = #[trigger] shown[i];
        &&& is_looked_at(target, one.entity, one.side)
        &&& one.side == SemSide::Before ==> before.contains(one.entity)
        &&& one.side == SemSide::After ==> after.contains(one.entity)
        &&& one.range.file_path == one.entity.file_path
        &&& one.range.start_line == one.entity.start_line
        &&& one.range.end_line == one.entity.end_line
    } by {
        let one = shown[i];
        assert(found.contains(one));
        lemma_candidate(target, before, after, one);
    }
    assert forall|k: int|
        0 <= k < before.len() && is_looked_at(
            target,
            #[trigger] before[k],
            SemSide::Before,
        ) implies exists|i: int|
        0 <= i < shown.len() && (#[trigger] shown[i]).side == SemSide::Before && shown[i].entity.id
            == before[k].id by {
        assert(before.contains(before[k]));
        lemma_is_candidate(target, before, after, before[k], SemSide::Before);
        let one = focused(SemSide::Before)(before[k]);
        let m = choose|m: int| 0 <= m < found.len() && found[m] == one;
        assert(has_focus(shown, found[m]));
    }
    assert forall|k: int|
        0 <= k < after.len() && is_looked_at(
            target,
            #[trigger] after[k],
            SemSide::After,
        ) implies exists|i: int|
        0 <= i < shown.len() && (#[trigger] shown[i]).side == SemSide::After && shown[i].entity.id
            == after[k].id by {
        assert(after.contains(after[k]));
        lemma_is_candidate(target, before, after, after[k], SemSide::After);
        let one = focused(SemSide::After)(after[k]);
        let m = choose|m: int| 0 <= m < found.len() && found[m] == one;
        assert(has_focus(shown, found[m]));
    }
}

proof fn lemma_kept_and_made(
    entities: Seq<EntityView>,
    wanted: spec_fn(EntityView) -> bool,
    side: SemSide,
    one: FocusedView,
)
    ensures
        entities.filter(wanted).map_values(focused(side)).contains(one) <==> one == focused(side)(
            one.entity,
        ) && entities.contains(one.entity) && wanted(one.entity),
{
    let kept = entities.filter(wanted);
    let made = kept.map_values(focused(side));
    lemma_filter_contains(entities, wanted);
    if made.contains(one) {
        let i = choose|i: int| 0 <= i < made.len() && made[i] == one;
        assert(kept.contains(kept[i]));
        assert(one == focused(side)(kept[i]));
    }
    if one == focused(side)(one.entity) && entities.contains(one.entity) && wanted(one.entity) {
        assert(kept.contains(one.entity));
        let i = choose|i: int| 0 <= i < kept.len() && kept[i] == one.entity;
        assert(made[i] == one);
    }
}

proof fn lemma_candidate_parts(
    target: FocusTargetView,
    before: Seq<EntityView>,
    after: Seq<EntityView>,
    one: FocusedView,
)
    ensures
        focus_candidates(target, before, after).contains(one) <==> {
            ||| target.location matches Some(location) && located(before, after, location).contains(
                one,
            )
            ||| target.hunk matches Some(hunk) && hunk_entities(before, after, hunk).contains(one)
        },
{
    let first = match target.location {
        Some(location) => located(before, after, location),
        None => Seq::empty(),
    };
    let second = match target.hunk {
        Some(hunk) => hunk_entities(before, after, hunk),
        None => Seq::empty(),
    };
    let all = first + second;
    if all.contains(one) {
        let i = choose|i: int| 0 <= i < all.len() && all[i] == one;
        if i < first.len() {
            assert(first[i] == one);
        } else {
            assert(second[i - first.len()] == one);
        }
    }
    if first.contains(one) {
        let i = choose|i: int| 0 <= i < first.len() && first[i] == one;
        assert(all[i] == one);
    }
    if second.contains(one) {
        let i = choose|i: int| 0 <= i < second.len() && second[i] == one;
        assert(all[first.len() + i] == one);
    }
}

proof fn lemma_candidate(
    target: FocusTargetView,
    before: Seq<EntityView>,
    after: Seq<EntityView>,
    one: FocusedView,
)
    requires
        focus_candidates(target, before, after).contains(one),
    ensures
        is_looked_at(target, one.entity, one.side),
        one == focused(one.side)(one.entity),
        on_side(before, after, one.side).contains(one.entity),
{
    lemma_candidate_parts(target, before, after, one);
    if let Some(location) = target.location {
        lemma_kept_and_made(
            on_side(before, after, location.side),
            spans(location),
            location.side,
            one,
        );
    }
    if let Some(hunk) = target.hunk {
        if let Some(range) = hunk_lines(hunk) {
            lemma_kept_and_made(
                on_side(before, after, hunk.side),
                meets(hunk_path(hunk), range),
                hunk.side,
                one,
            );
        }
    }
}

proof fn lemma_is_candidate(
    target: FocusTargetView,
    before: Seq<EntityView>,
    after: Seq<EntityView>,
    entity: EntityView,
    side: SemSide,
)
    requires
        is_looked_at(target, entity, side),
        on_side(before, after, side).contains(entity),
    ensures
        focus_candidates(target, before, after).contains(focused(side)(entity)),
{
    let one = focused(side)(entity);
    lemma_candidate_parts(target, before, after, one);
    if let Some(location) = target.location {
        lemma_kept_and_made(
            on_side(before, after, location.side),
            spans(location),
            location.side,
            one,
        );
    }
    if let Some(hunk) = target.hunk {
        if let Some(range) = hunk_lines(hunk) {
            lemma_kept_and_made(
                on_side(before, after, hunk.side),
                meets(hunk_path(hunk), range),
                hunk.side,
                one,
            );
        }
    }
}

/// With a location and no hunk, what is in focus stands in the file of the
/// location and holds its line; and every entity of that side that does is in
/// focus.
pub proof fn law_a_location_means_the_entities_on_its_line<H: Fn(&str) -> String>(
    hash: H,
    changes: Seq<FileChangeView>,
    target: FocusTargetView,
    location: LocationView,
    options: OptionsView,
    registry: RegistryView,
    result: DiffResultView,
)
    requires
        target.location == Some(location),
        target.hunk is None,
    ensures
        ({
            let shown = focus_of(
                hash,
                changes,
                target,
                options,
                registry,
                result,
            ).overlapping_entities;
            let there = match location.side {
                SemSide::Before => entities_before(registry, changes),
                SemSide::After => entities_after(registry, changes),
            };
            &&& forall|i: int|
                0 <= i < shown.len() ==> {
                    &&& (#[trigger] shown[i]).side == location.side
                    &&& there.contains(shown[i].entity)
                    &&& shown[i].entity.file_path == location.file_path
                    &&& shown[i].entity.start_line <= location.line <= shown[i].entity.end_line
                }
            &&& forall|k: int|
                0 <= k < there.len() && (#[trigger] there[k]).file_path == location.file_path
                    && there[k].start_line <= location.line <= there[k].end_line ==> exists|i: int|
                    0 <= i < shown.len() && (#[trigger] shown[i]).entity.id == there[k].id
        }),
{
    law_focus_shows_what_is_looked_at(hash, changes, target, options, registry, result);
    let there = match location.side {
        SemSide::Before => entities_before(registry, changes),
        SemSide::After => entities_after(registry, changes),
    };
    let shown = focus_of(hash, changes, target, options, registry, result).overlapping_entities;
    assert forall|k: int|
        0 <= k < there.len() && (#[trigger] there[k]).file_path == location.file_path
            && there[k].start_line <= location.line <= there[k].end_line implies exists|i: int|
        0 <= i < shown.len() && (#[trigger] shown[i]).entity.id == there[k].id by {
        assert(is_looked_at(target, there[k], location.side));
    }
}

/// The entities in focus stand in the order of their files, then of their first
/// and of their last lines, then of their ids; and none follows the same entity
/// on the same side.
pub proof fn law_focus_is_in_the_order_of_places<H: Fn(&str) -> String>(
    hash: H,
    changes: Seq<FileChangeView>,
    target: FocusTargetView,
    options: OptionsView,
    registry: RegistryView,
    result: DiffResultView,
    i: int,
    j: int,
)
    requires
        0 <= i < j < focus_of(
            hash,
            changes,
            target,
            options,
            registry,
            result,
        ).overlapping_entities.len(),
    ensures
        ({
            let shown = focus_of(
                hash,
                changes,
                target,
                options,
                registry,
                result,
            ).overlapping_entities;
            let a = shown[i].entity;
            let b = shown[j].entity;
            &&& text_before(a.file_path, b.file_path) || a.file_path == b.file_path && (a.start_line
                < b.start_line || a.start_line == b.start_line && (a.end_line < b.end_line
                || a.end_line == b.end_line && (a.id == b.id || text_before(a.id, b.id))))
            &&& j == i + 1 ==> a.id != b.id || shown[i].side != shown[j].side
        }),
{
    let before = entities_before(registry, changes);
    let after = entities_after(registry, changes);
    let shown = entities_in_focus(target, before, after);
    law_entities_in_focus_are_in_order(target, before, after);
    let key = key_fn::<SemFocusedEntity>();
    assert(!key_before(key(shown[j]), key(shown[i])));
    lemma_text_before_total(shown[i].entity.file_path, shown[j].entity.file_path);
    lemma_text_before_total(shown[i].entity.id, shown[j].entity.id);
    if j == i + 1 {
        assert(!same_focus(shown[i], shown[j]));
    }
}

/// Whether an entity stands before another: in an earlier file, or earlier in
/// the same file by its first line, its last line and its id.
pub open spec fn stands_before(a: EntityView, b: EntityView) -> bool {
    ||| text_before(a.file_path, b.file_path)
    ||| a.file_path == b.file_path && a.start_line < b.start_line
    ||| a.file_path == b.file_path && a.start_line == b.start_line && a.end_line < b.end_line
    ||| a.file_path == b.file_path && a.start_line == b.start_line && a.end_line == b.end_line
        && text_before(a.id, b.id)
}

/// Whether an entity on a side is in focus at its place: one with its id and its
/// side stands there, not behind it, and nothing that stands before it follows.
pub open spec fn is_shown_in_place(
    shown: Seq<FocusedView>,
    entity: EntityView,
    side: SemSide,
) -> bool {
    exists|i: int|
        {
            &&& 0 <= i < shown.len()
            &&& (#[trigger] shown[i]).side == side
            &&& shown[i].entity.id == entity.id
            &&& !stands_before(entity, shown[i].entity)
            &&& forall|j: int|
                i < j < shown.len() ==> !stands_before((#[trigger] shown[j]).entity, entity)
        }
}

/// An entity that is looked at is left out only where it directly follows one
/// with its id on its side.
pub proof fn law_only_direct_repeats_are_left_out<H: Fn(&str) -> String>(
    hash: H,
    changes: Seq<FileChangeView>,
    target: FocusTargetView,
    options: OptionsView,
    registry: RegistryView,
    result: DiffResultView,
    k: int,
)
    ensures
        ({
            let shown = focus_of(
                hash,
                changes,
                target,
                options,
                registry,
                result,
            ).overlapping_entities;
            let before = entities_before(registry, changes);
            let after = entities_after(registry, changes);
            &&& 0 <= k < before.len() && is_looked_at(target, before[k], SemSide::Before)
                ==> is_shown_in_place(shown, before[k], SemSide::Before)
            &&& 0 <= k < after.len() && is_looked_at(target, after[k], SemSide::After)
                ==> is_shown_in_place(shown, after[k], SemSide::After)
        }),
{
    let before = entities_before(registry, changes);
    let after = entities_after(registry, changes);
    if 0 <= k < before.len() && is_looked_at(target, before[k], SemSide::Before) {
        assert(before.contains(before[k]));
        lemma_shown_in_place(target, before, after, before[k], SemSide::Before);
    }
    if 0 <= k < after.len() && is_looked_at(target, after[k], SemSide::After) {
        assert(after.contains(after[k]));
        lemma_shown_in_place(target, before, after, after[k], SemSide::After);
    }
}

proof fn lemma_shown_in_place(
    target: FocusTargetView,
    before: Seq<EntityView>,
    after: Seq<EntityView>,
    entity: EntityView,
    side: SemSide,
)
    requires
        is_looked_at(target, entity, side),
        on_side(before, after, side).contains(entity),
    ensures
        is_shown_in_place(entities_in_focus(target, before, after), entity, side),
{
    broadcast use vstd::seq_lib::group_to_multiset_ensures;

    let one = focused(side)(entity);
    let all = focus_candidates(target, before, after);
    let sorted = sorted_by(all, key_fn::<SemFocusedEntity>());
    lemma_is_candidate(target, before, after, entity, side);
    lemma_sorted_by(all, key_fn::<SemFocusedEntity>());
    assert(all.to_multiset().contains(one));
    assert(sorted.contains(one));
    let m = choose|m: int| 0 <= m < sorted.len() && sorted[m] == one;
    lemma_kept_in_place(sorted, m);
}

proof fn lemma_stands_before(a: FocusedView, b: FocusedView)
    ensures
        stands_before(a.entity, b.entity) == key_before(
            key_fn::<SemFocusedEntity>()(a),
            key_fn::<SemFocusedEntity>()(b),
        ),
{
    if a.entity.file_path == b.entity.file_path {
        lemma_text_before_irreflexive(a.entity.file_path);
    }
}

proof fn lemma_kept_in_place(entities: Seq<FocusedView>, m: int)
    requires
        in_order(entities, key_fn::<SemFocusedEntity>()),
        0 <= m < entities.len(),
    ensures
        is_shown_in_place(without_repeats(entities), entities[m].entity, entities[m].side),
    decreases entities.len(),
{
    let key = key_fn::<SemFocusedEntity>();
    let n = entities.len() - 1;
    let front = entities.drop_last();
    let before = without_repeats(front);
    let kept = without_repeats(entities);
    if m < n {
        assert forall|i: int, j: int| 0 <= i <= j < front.len() implies !key_before(
            key(#[trigger] front[j]),
            key(#[trigger] front[i]),
        ) by {
            assert(!key_before(key(entities[j]), key(entities[i])));
        }
        lemma_kept_in_place(front, m);
        let i = choose|i: int|
            {
                &&& 0 <= i < before.len()
                &&& (#[trigger] before[i]).side == front[m].side
                &&& before[i].entity.id == front[m].entity.id
                &&& !stands_before(front[m].entity, before[i].entity)
                &&& forall|j: int|
                    i < j < before.len() ==> !stands_before(
                        (#[trigger] before[j]).entity,
                        front[m].entity,
                    )
            };
        assert(kept[i] == before[i]);
        assert forall|j: int| i < j < kept.len() implies !stands_before(
            (#[trigger] kept[j]).entity,
            entities[m].entity,
        ) by {
            if j < before.len() {
                assert(kept[j] == before[j]);
            } else {
                assert(!key_before(key(entities[n]), key(entities[m])));
                lemma_stands_before(entities[n], entities[m]);
            }
        }
    } else {
        lemma_without_repeats(entities);
        let i = kept.len() - 1;
        assert(entities.contains(kept[i]));
        let p = choose|p: int| 0 <= p < entities.len() && entities[p] == kept[i];
        assert(!key_before(key(entities[n]), key(entities[p])));
        lemma_stands_before(entities[n], entities[p]);
        assert(kept[i].side == entities[m].side);
    }
}

// ---------------------------------------------------------------------------
// The target entity

/// Whether a target names an entity: by its id, its name and its file, as far as
/// it gives them.
pub open spec fn names_entity(target: TargetView, entity: EntityView) -> bool {
    &&& target.entity_id is None || target.entity_id == Some(entity.id)
    &&& target.entity_name is None || target.entity_name == Some(entity.name)
    &&& target.file_path is None || target.file_path == Some(entity.file_path)
}

/// Whether an entity at a position is the first that a target names.
pub open spec fn is_first_named(target: TargetView, entities: Seq<EntityView>, k: int) -> bool {
    &&& 0 <= k < entities.len()
    &&& names_entity(target, entities[k])
    &&& forall|j: int| 0 <= j < k ==> !names_entity(target, #[trigger] entities[j])
}

/// Whether a target names none of some entities.
pub open spec fn names_none(target: TargetView, entities: Seq<EntityView>) -> bool {
    forall|j: int| 0 <= j < entities.len() ==> !names_entity(target, #[trigger] entities[j])
}

/// Whether one is an entity as it stands on a side.
pub open spec fn is_shown_on(one: Option<FocusedView>, entity: EntityView, side: SemSide) -> bool {
    one matches Some(one) && {
        &&& one.entity == entity
        &&& one.side == side
        &&& one.range.file_path == entity.file_path
        &&& one.range.start_line == entity.start_line
        &&& one.range.end_line == entity.end_line
    }
}

/// How many lines there are behind the first line of an entity, up to its last.
pub open spec fn lines_behind_first(entity: EntityView) -> int {
    if entity.end_line >= entity.start_line {
        entity.end_line - entity.start_line
    } else {
        0
    }
}

/// The target entity is the one that is named: the first after the change or
/// else the first before it. Where none is named, it is the one in focus that
/// goes on for the most lines, the last of them where there are more; and there
/// is none only where nothing is in focus.
pub proof fn law_the_target_entity_is_named_or_widest<H: Fn(&str) -> String>(
    hash: H,
    changes: Seq<FileChangeView>,
    target: FocusTargetView,
    options: OptionsView,
    registry: RegistryView,
    result: DiffResultView,
)
    ensures
        ({
            let focus = focus_of(hash, changes, target, options, registry, result);
            let shown = focus.overlapping_entities;
            let before = entities_before(registry, changes);
            let after = entities_after(registry, changes);
            &&& target.entity matches Some(wanted) ==> {
                &&& forall|k: int|
                    #![trigger after[k]]
                    is_first_named(wanted, after, k) ==> is_shown_on(
                        focus.target_entity,
                        after[k],
                        SemSide::After,
                    )
                &&& names_none(wanted, after) ==> forall|k: int|
                    #![trigger before[k]]
                    is_first_named(wanted, before, k) ==> is_shown_on(
                        focus.target_entity,
                        before[k],
                        SemSide::Before,
                    )
            }
            &&& (target.entity is None || names_none(target.entity->0, after) && names_none(
                target.entity->0,
                before,
            )) ==> match focus.target_entity {
                None => shown.len() == 0,
                Some(one) => exists|k: int|
                    {
                        &&& 0 <= k < shown.len()
                        &&& #[trigger] shown[k] == one
                        &&& forall|i: int|
                            0 <= i < shown.len() ==> lines_behind_first(
                                (#[trigger] shown[i]).entity,
                            ) <= lines_behind_first(one.entity)
                        &&& forall|i: int|
                            k < i < shown.len() ==> lines_behind_first(
                                (#[trigger] shown[i]).entity,
                            ) < lines_behind_first(one.entity)
                    },
            }
        }),
{
    let focus = focus_of(hash, changes, target, options, registry, result);
    let shown = focus.overlapping_entities;
    let before = entities_before(registry, changes);
    let after = entities_after(registry, changes);
    if let Some(wanted) = target.entity {
        lemma_first_named(wanted, before);
        lemma_first_named(wanted, after);
    }
    lemma_widest_is_last(shown);
}

proof fn lemma_first_named(target: TargetView, entities: Seq<EntityView>)
    ensures
        forall|k: int|
            #![trigger entities[k]]
            is_first_named(target, entities, k) ==> first_where(
                entities,
                is_target(target),
            ) == Some(entities[k]),
        names_none(target, entities) ==> first_where(
            entities,
            is_target(target),
        ) is None,
{
    let wanted = is_target(target);
    assert forall|entity: EntityView| wanted(entity) == #[trigger] names_entity(target, entity) by {}
    assert forall|k: int|
        #![trigger entities[k]]
        is_first_named(target, entities, k) implies first_where(entities, wanted)
        == Some(entities[k]) by {
        assert forall|j: int| 0 <= j < k implies !wanted(#[trigger] entities[j]) by {
            assert(!names_entity(target, entities[j]));
        }
        lemma_first_where_at(entities, wanted, k);
    }
    if names_none(target, entities) {
        assert forall|j: int| 0 <= j < entities.len() implies !wanted(#[trigger] entities[j]) by {
            assert(!names_entity(target, entities[j]));
        }
        lemma_first_where_none(entities, wanted);
    }
}

proof fn lemma_widest_is_last(entities: Seq<FocusedView>)
    ensures
        match widest(entities) {
            None => entities.len() == 0,
            Some(one) => exists|k: int|
                {
                    &&& 0 <= k < entities.len()
                    &&& #[trigger] entities[k] == one
                    &&& forall|i: int|
                        0 <= i < entities.len() ==> lines_behind_first(
                            (#[trigger] entities[i]).entity,
                        ) <= lines_behind_first(one.entity)
                    &&& forall|i: int|
                        k < i < entities.len() ==> lines_behind_first(
                            (#[trigger] entities[i]).entity,
                        ) < lines_behind_first(one.entity)
                },
        },
    decreases entities.len(),
{
    if entities.len() > 0 {
        let front = entities.drop_last();
        let n = entities.len() - 1;
        lemma_widest_is_last(front);
        let one = widest(entities)->0;
        match widest(front) {
            None => {
                assert(entities[n] == one);
            },
            Some(best) => {
                let m = choose|m: int|
                    {
                        &&& 0 <= m < front.len()
                        &&& #[trigger] front[m] == best
                        &&& forall|i: int|
                            0 <= i < front.len() ==> lines_behind_first(
                                (#[trigger] front[i]).entity,
                            ) <= lines_behind_first(best.entity)
                        &&& forall|i: int|
                            m < i < front.len() ==> lines_behind_first(
                                (#[trigger] front[i]).entity,
                            ) < lines_behind_first(best.entity)
                    };
                let k = if reach(best) <= reach(entities.last()) {
                    n
                } else {
                    m
                };
                assert(entities[k] == one);
                assert forall|i: int| 0 <= i < entities.len() implies lines_behind_first(
                    (#[trigger] entities[i]).entity,
                ) <= lines_behind_first(one.entity) by {
                    if i < n {
                        assert(front[i] == entities[i]);
                    }
                }
                assert forall|i: int| k < i < entities.len() implies lines_behind_first(
                    (#[trigger] entities[i]).entity,
                ) < lines_behind_first(one.entity) by {
                    if i < n {
                        assert(front[i] == entities[i]);
                    }
                }
            },
        }
    }
}

// ---------------------------------------------------------------------------
// Changes in focus

/// Whether a change belongs to what is looked at: it is of an entity in focus,
/// of the target entity by id or name, or touched by the hunk.
pub open spec fn belongs_to_focus(
    change: EmbeddedChangeView,
    hunk: Option<HunkTargetView>,
    target_entity: Option<FocusedView>,
    shown: Seq<FocusedView>,
) -> bool {
    ||| exists|i: int|
        0 <= i < shown.len() && (#[trigger] shown[i]).entity.id == change.change.entity_id
    ||| target_entity is Some && target_entity->0.entity.id == change.change.entity_id
    ||| target_entity is Some && target_entity->0.entity.name == change.change.entity_name
    ||| hunk matches Some(hunk) && exists|i: int|
        {
            let overlap = #[trigger] change.hunk_overlaps[i];
            &&& 0 <= i < change.hunk_overlaps.len()
            &&& overlap.file_path == hunk.file_path
            &&& hunk.hunk_index is None || hunk.hunk_index == Some(overlap.hunk_index)
            &&& hunk.hunk_header is None || hunk.hunk_header == overlap.hunk_header
        }
}

/// The changes in focus are those of the analysis that belong to what is looked
/// at, in its order.
pub proof fn law_focus_shows_the_changes_that_belong_to_it<H: Fn(&str) -> String>(
    hash: H,
    changes: Seq<FileChangeView>,
    target: FocusTargetView,
    options: OptionsView,
    registry: RegistryView,
    result: DiffResultView,
)
    ensures
        ({
            let focus = focus_of(hash, changes, target, options, registry, result);
            &&& focus.matching_changes == analysis_of(
                hash,
                changes,
                options,
                registry,
                result,
            ).changes.filter(
                |change: EmbeddedChangeView|
                    belongs_to_focus(
                        change,
                        target.hunk,
                        focus.target_entity,
                        focus.overlapping_entities,
                    ),
            )
            &&& focus.warnings.len() == 0
            &&& focus.api_version == "sem-embedded-v1"@
            &&& focus.cache_key == focus_key(hash, changes, target, options)
        }),
{
    let focus = focus_of(hash, changes, target, options, registry, result);
    let belongs = |change: EmbeddedChangeView|
        belongs_to_focus(change, target.hunk, focus.target_entity, focus.overlapping_entities);
    let wanted = in_focus(target, focus.target_entity, focus.overlapping_entities);
    assert forall|change: EmbeddedChangeView| #[trigger] belongs(change) == wanted(change) by {
        if let Some(hunk) = target.hunk {
            if touched_by_focus(change, hunk) {
                let i = choose|i: int|
                    0 <= i < change.hunk_overlaps.len() && is_hunk_in_focus(
                        #[trigger] change.hunk_overlaps[i],
                        hunk,
                    );
                assert(change.hunk_overlaps[i].file_path == hunk.file_path);
            }
            if exists|i: int|
                {
                    let overlap = #[trigger] change.hunk_overlaps[i];
                    &&& 0 <= i < change.hunk_overlaps.len()
                    &&& overlap.file_path == hunk.file_path
                    &&& hunk.hunk_index is None || hunk.hunk_index == Some(overlap.hunk_index)
                    &&& hunk.hunk_header is None || hunk.hunk_header == overlap.hunk_header
                } {
                let i = choose|i: int|
                    {
                        let overlap = #[trigger] change.hunk_overlaps[i];
                        &&& 0 <= i < change.hunk_overlaps.len()
                        &&& overlap.file_path == hunk.file_path
                        &&& hunk.hunk_index is None || hunk.hunk_index == Some(overlap.hunk_index)
                        &&& hunk.hunk_header is None || hunk.hunk_header == overlap.hunk_header
                    };
                assert(is_hunk_in_focus(change.hunk_overlaps[i], hunk));
            }
        }
    }
    assert(belongs =~= wanted);
}

} // verus!
