//! What a reader looks at: the entities and changes in focus.

use vstd::prelude::*;

use crate::analysis::{
    analysis_of, analyze_file_changes, entities_after, entities_before, entity_range,
    extract_change_entities, lines_overlap, range_of, ExtractedChangeEntities,
};
use crate::execution::{cancelled, ensure_not_cancelled, may_be_told, SemExecutionContext};
use crate::hash::is_content_hash;
use crate::keys::{focus_cache_key, focus_key};
use crate::model::{DiffResult, DiffResultView, EntityView, SemanticEntity};
use crate::order::{
    in_order, key_before, key_fn, lemma_sorted_by, sort_keyed, sorted_by, Key, Keyed, SortKey,
};
use crate::parses::{ParserRegistry, RegistryView};
use crate::seqs::{
    first_where, lemma_filter_step, lemma_first_where_at, lemma_first_where_none, push_item,
    push_items, slice_of,
};
use crate::text::{option_is_text, option_text_or, same_text, text_or};
use crate::types::{
    EmbeddedChangeView, FileChangeView, FocusTargetView, FocusedView, HunkTargetView,
    LocationView, OptionsView, OverlapView, ResolutionView, SemEmbeddedChange, SemEmbeddedOptions,
    SemEntityTarget, SemFileChange, SemFocusResolution, SemFocusTarget, SemFocusedEntity,
    SemHunkTarget, SemLineRange, SemLocationTarget, SemResult, SemSide, TargetView,
    SEM_EMBEDDED_API_VERSION,
};

verus! {

// ---------------------------------------------------------------------------
// Entities in focus

/// The entities on one side.
pub open spec fn on_side(
    before: Seq<EntityView>,
    after: Seq<EntityView>,
    side: SemSide,
) -> Seq<EntityView> {
    match side {
        SemSide::Before => before,
        SemSide::After => after,
    }
}

/// The entities on one side.
pub fn side_entities(extracted: &ExtractedChangeEntities, side: SemSide) -> (entities:
    &[SemanticEntity])
    ensures
        entities.deep_view() == on_side(
            extracted.before.deep_view(),
            extracted.after.deep_view(),
            side,
        ),
{
    match side {
        SemSide::Before => slice_of(&extracted.before),
        SemSide::After => slice_of(&extracted.after),
    }
}

/// An entity in focus on one side.
pub open spec fn focused(side: SemSide) -> spec_fn(EntityView) -> FocusedView {
    |entity: EntityView| FocusedView { entity, range: range_of(entity), side }
}

/// Puts an entity into focus on one side.
pub fn focused_entity(entity: SemanticEntity, side: SemSide) -> (result: SemFocusedEntity)
    ensures
        result.deep_view() == focused(side)(entity.deep_view()),
{
    SemFocusedEntity { range: entity_range(&entity), entity, side }
}

/// Whether an entity spans a line of a file.
pub open spec fn spans(location: LocationView) -> spec_fn(EntityView) -> bool {
    |entity: EntityView|
        entity.file_path == location.file_path && entity.start_line <= location.line
            && location.line <= entity.end_line
}

/// The entities at a location.
pub open spec fn located(
    before: Seq<EntityView>,
    after: Seq<EntityView>,
    location: LocationView,
) -> Seq<FocusedView> {
    on_side(before, after, location.side).filter(spans(location)).map_values(
        focused(location.side),
    )
}

/// Collects the entities at a location.
pub fn entities_at_location(
    extracted: &ExtractedChangeEntities,
    location: &SemLocationTarget,
) -> (entities: Vec<SemFocusedEntity>)
    ensures
        entities.deep_view() == located(
            extracted.before.deep_view(),
            extracted.after.deep_view(),
            location.deep_view(),
        ),
{
    let candidates = side_entities(extracted, location.side);
    let ghost all = candidates.deep_view();
    let ghost wanted = spans(location.deep_view());
    let ghost make = focused(location.side);
    let mut entities: Vec<SemFocusedEntity> = Vec::new();
    let mut i: usize = 0;
    proof {
        reveal(Seq::filter);
        assert(entities.deep_view() =~= all.take(0).filter(wanted).map_values(make));
    }
    while i < candidates.len()
        invariant
            i <= candidates@.len(),
            all == candidates.deep_view(),
            wanted == spans(location.deep_view()),
            make == focused(location.side),
            entities.deep_view() == all.take(i as int).filter(wanted).map_values(make),
        decreases candidates@.len() - i,
    {
        let entity = &candidates[i];
        proof {
            assert(all[i as int] == entity.deep_view());
            lemma_filter_step(all, wanted, i as int);
        }
        if same_text(entity.file_path.as_str(), location.file_path.as_str()) && entity.start_line
            <= location.line && location.line <= entity.end_line {
            push_item(&mut entities, focused_entity(entity.clone(), location.side));
        }
        assert(entities.deep_view() =~= all.take(i + 1).filter(wanted).map_values(make));
        i = i + 1;
    }
    assert(all.take(i as int) =~= all);
    entities
}

/// Whether an entity and some lines have one in common.
pub fn entity_range_overlaps_line_range(entity: &SemanticEntity, range: &SemLineRange) -> (overlap:
    bool)
    ensures
        overlap == lines_overlap(entity.start_line, entity.end_line, *range),
{
    entity.start_line > 0 && entity.end_line > 0 && range.start_line > 0 && range.end_line > 0
        && entity.start_line <= range.end_line && range.start_line <= entity.end_line
}

/// Whether an entity stands in a file and shares a line with a range.
pub open spec fn meets(path: Seq<char>, range: SemLineRange) -> spec_fn(EntityView) -> bool {
    |entity: EntityView|
        entity.file_path == path && lines_overlap(entity.start_line, entity.end_line, range)
}

/// The file of a hunk on the side that is looked at.
pub open spec fn hunk_path(hunk: HunkTargetView) -> Seq<char> {
    match hunk.side {
        SemSide::Before => text_or(hunk.old_file_path, hunk.file_path),
        SemSide::After => hunk.file_path,
    }
}

/// The lines of a hunk on the side that is looked at.
pub open spec fn hunk_lines(hunk: HunkTargetView) -> Option<SemLineRange> {
    match hunk.side {
        SemSide::Before => hunk.old_range,
        SemSide::After => hunk.new_range,
    }
}

/// The entities that a hunk touches.
pub open spec fn hunk_entities(
    before: Seq<EntityView>,
    after: Seq<EntityView>,
    hunk: HunkTargetView,
) -> Seq<FocusedView> {
    match hunk_lines(hunk) {
        Some(range) => on_side(before, after, hunk.side).filter(
            meets(hunk_path(hunk), range),
        ).map_values(focused(hunk.side)),
        None => Seq::empty(),
    }
}

/// Collects the entities that a hunk touches.
pub fn entities_for_hunk_target(
    extracted: &ExtractedChangeEntities,
    hunk: &SemHunkTarget,
) -> (entities: Vec<SemFocusedEntity>)
    ensures
        entities.deep_view() == hunk_entities(
            extracted.before.deep_view(),
            extracted.after.deep_view(),
            hunk.deep_view(),
        ),
{
    let mut entities: Vec<SemFocusedEntity> = Vec::new();
    let (path, lines): (&str, Option<SemLineRange>) = match hunk.side {
        SemSide::Before => (
            option_text_or(&hunk.old_file_path, hunk.file_path.as_str()),
            hunk.old_range,
        ),
        SemSide::After => (hunk.file_path.as_str(), hunk.new_range),
    };
    assert(path@ == hunk_path(hunk.deep_view()));
    assert(lines == hunk_lines(hunk.deep_view()));
    match lines {
        None => {
            assert(entities.deep_view() =~= Seq::empty());
            entities
        },
        Some(range) => {
            let candidates = side_entities(extracted, hunk.side);
            let ghost all = candidates.deep_view();
            let ghost wanted = meets(path@, range);
            let ghost make = focused(hunk.side);
            let mut i: usize = 0;
            proof {
                reveal(Seq::filter);
                assert(entities.deep_view() =~= all.take(0).filter(wanted).map_values(make));
            }
            while i < candidates.len()
                invariant
                    i <= candidates@.len(),
                    all == candidates.deep_view(),
                    wanted == meets(path@, range),
                    make == focused(hunk.side),
                    entities.deep_view() == all.take(i as int).filter(wanted).map_values(make),
                decreases candidates@.len() - i,
            {
                let entity = &candidates[i];
                proof {
                    assert(all[i as int] == entity.deep_view());
                    lemma_filter_step(all, wanted, i as int);
                }
                if same_text(entity.file_path.as_str(), path) && entity_range_overlaps_line_range(
                    entity,
                    &range,
                ) {
                    push_item(&mut entities, focused_entity(entity.clone(), hunk.side));
                }
                assert(entities.deep_view() =~= all.take(i + 1).filter(wanted).map_values(make));
                i = i + 1;
            }
            assert(all.take(i as int) =~= all);
            entities
        },
    }
}

impl Keyed for SemFocusedEntity {
    /// Entities in focus are sorted by their file, then by where they begin and
    /// where they end.
    open spec fn key_of(value: FocusedView) -> Key {
        Key {
            text: value.entity.file_path,
            first: value.entity.start_line as int,
            second: value.entity.end_line as int,
            last: value.entity.id,
        }
    }

    fn sort_key(&self) -> (key: SortKey) {
        SortKey {
            text: self.entity.file_path.clone(),
            first: self.entity.start_line,
            second: self.entity.end_line,
            last: self.entity.id.clone(),
        }
    }
}

/// Whether two are the same entity on the same side.
pub open spec fn same_focus(a: FocusedView, b: FocusedView) -> bool {
    a.side == b.side && a.entity.id == b.entity.id
}

/// A sequence without what directly repeats the entity before it.
pub open spec fn without_repeats(entities: Seq<FocusedView>) -> Seq<FocusedView>
    decreases entities.len(),
{
    if entities.len() == 0 {
        Seq::empty()
    } else {
        let before = without_repeats(entities.drop_last());
        if before.len() > 0 && same_focus(before.last(), entities.last()) {
            before
        } else {
            before.push(entities.last())
        }
    }
}

/// All entities at the location and under the hunk of a target, one after the
/// other.
pub open spec fn focus_candidates(
    target: FocusTargetView,
    before: Seq<EntityView>,
    after: Seq<EntityView>,
) -> Seq<FocusedView> {
    (match target.location {
        Some(location) => located(before, after, location),
        None => Seq::empty(),
    }) + (match target.hunk {
        Some(hunk) => hunk_entities(before, after, hunk),
        None => Seq::empty(),
    })
}

/// The entities at the location and under the hunk of a target, sorted, without
/// repeats.
pub open spec fn entities_in_focus(
    target: FocusTargetView,
    before: Seq<EntityView>,
    after: Seq<EntityView>,
) -> Seq<FocusedView> {
    without_repeats(
        sorted_by(focus_candidates(target, before, after), key_fn::<SemFocusedEntity>()),
    )
}

/// Collects the entities at the location and under the hunk of a target.
pub fn focus_entities(target: &SemFocusTarget, extracted: &ExtractedChangeEntities) -> (entities:
    Vec<SemFocusedEntity>)
    ensures
        entities.deep_view() == entities_in_focus(
            target.deep_view(),
            extracted.before.deep_view(),
            extracted.after.deep_view(),
        ),
{
    let ghost before = extracted.before.deep_view();
    let ghost after = extracted.after.deep_view();
    let mut found: Vec<SemFocusedEntity> = Vec::new();
    assert(found.deep_view() =~= Seq::empty());
    if let Some(location) = &target.location {
        push_items(&mut found, entities_at_location(extracted, location));
    }
    let ghost first = match target.deep_view().location {
        Some(location) => located(before, after, location),
        None => Seq::empty(),
    };
    assert(found.deep_view() =~= first);
    if let Some(hunk) = &target.hunk {
        push_items(&mut found, entities_for_hunk_target(extracted, hunk));
    }
    assert(found.deep_view() =~= focus_candidates(target.deep_view(), before, after));
    let sorted = sort_keyed(found);
    let ghost all = sorted.deep_view();
    let mut entities: Vec<SemFocusedEntity> = Vec::new();
    assert(entities.deep_view() =~= without_repeats(all.take(0)));
    for entity in it: sorted
        invariant
            it.seq() == sorted@,
            all == sorted.deep_view(),
            entities.deep_view() == without_repeats(all.take(it.index())),
    {
        let ghost i = it.index();
        assert(all[i] == entity.deep_view());
        assert(all.take(i + 1).drop_last() =~= all.take(i));
        assert(all.take(i + 1).last() == all[i]);
        let n: usize = entities.len();
        let repeats = if n > 0 {
            let last = &entities[n - 1];
            assert(entities.deep_view().last() == last.deep_view());
            last.side == entity.side && same_text(last.entity.id.as_str(), entity.entity.id.as_str())
        } else {
            false
        };
        if !repeats {
            push_item(&mut entities, entity);
        }
    }
    assert(all.take(all.len() as int) =~= all);
    entities
}

// ---------------------------------------------------------------------------
// The target entity

/// Whether an entity is one that a target names. What the target leaves out
/// does not matter.
pub open spec fn is_target(target: TargetView) -> spec_fn(EntityView) -> bool {
    |entity: EntityView|
        {
            &&& target.entity_id matches Some(id) ==> entity.id == id
            &&& target.entity_name matches Some(name) ==> entity.name == name
            &&& target.file_path matches Some(path) ==> entity.file_path == path
        }
}

/// Whether an entity is one that a target names.
pub fn entity_matches_target(entity: &SemanticEntity, target: &SemEntityTarget) -> (matches: bool)
    ensures
        matches == is_target(target.deep_view())(entity.deep_view()),
{
    let id_fits = match &target.entity_id {
        Some(id) => same_text(entity.id.as_str(), id.as_str()),
        None => true,
    };
    let name_fits = match &target.entity_name {
        Some(name) => same_text(entity.name.as_str(), name.as_str()),
        None => true,
    };
    let path_fits = match &target.file_path {
        Some(path) => same_text(entity.file_path.as_str(), path.as_str()),
        None => true,
    };
    id_fits && name_fits && path_fits
}

/// The first entity that a target names, on one side.
pub open spec fn target_on_side(
    target: TargetView,
    before: Seq<EntityView>,
    after: Seq<EntityView>,
    side: SemSide,
) -> Option<FocusedView> {
    match first_where(on_side(before, after, side), is_target(target)) {
        Some(entity) => Some(focused(side)(entity)),
        None => None,
    }
}

/// The first entity that a target names, after the change or else before it.
pub open spec fn named_entity(
    target: TargetView,
    before: Seq<EntityView>,
    after: Seq<EntityView>,
) -> Option<FocusedView> {
    match target_on_side(target, before, after, SemSide::After) {
        Some(entity) => Some(entity),
        None => target_on_side(target, before, after, SemSide::Before),
    }
}

fn find_target(
    target: &SemEntityTarget,
    extracted: &ExtractedChangeEntities,
    side: SemSide,
) -> (found: Option<SemFocusedEntity>)
    ensures
        found.deep_view() == target_on_side(
            target.deep_view(),
            extracted.before.deep_view(),
            extracted.after.deep_view(),
            side,
        ),
{
    let entities = side_entities(extracted, side);
    let ghost all = entities.deep_view();
    let ghost wanted = is_target(target.deep_view());
    let mut i: usize = 0;
    while i < entities.len()
        invariant
            i <= entities@.len(),
            all == entities.deep_view(),
            wanted == is_target(target.deep_view()),
            all == on_side(extracted.before.deep_view(), extracted.after.deep_view(), side),
            forall|j: int| 0 <= j < i ==> !wanted(#[trigger] all[j]),
        decreases entities@.len() - i,
    {
        assert(all[i as int] == entities@[i as int].deep_view());
        if entity_matches_target(&entities[i], target) {
            proof {
                lemma_first_where_at(all, wanted, i as int);
            }
            return Some(focused_entity(entities[i].clone(), side));
        }
        i = i + 1;
    }
    proof {
        lemma_first_where_none(all, wanted);
    }
    None
}

/// Finds the first entity that a target names, after the change or else before
/// it.
pub fn focus_entity_by_target(
    target: &SemEntityTarget,
    extracted: &ExtractedChangeEntities,
) -> (found: Option<SemFocusedEntity>)
    ensures
        found.deep_view() == named_entity(
            target.deep_view(),
            extracted.before.deep_view(),
            extracted.after.deep_view(),
        ),
{
    let after = find_target(target, extracted, SemSide::After);
    if after.is_some() {
        return after;
    }
    find_target(target, extracted, SemSide::Before)
}

/// How many lines an entity reaches beyond its first.
pub open spec fn reach(entity: FocusedView) -> int {
    if entity.entity.start_line <= entity.entity.end_line {
        entity.entity.end_line - entity.entity.start_line
    } else {
        0
    }
}

/// The entity that reaches over the most lines: the last one, where there are
/// more.
pub open spec fn widest(entities: Seq<FocusedView>) -> Option<FocusedView>
    decreases entities.len(),
{
    if entities.len() == 0 {
        None
    } else {
        match widest(entities.drop_last()) {
            Some(best) => if reach(best) <= reach(entities.last()) {
                Some(entities.last())
            } else {
                Some(best)
            },
            None => Some(entities.last()),
        }
    }
}

fn reach_of(entity: &SemFocusedEntity) -> (lines: usize)
    ensures
        lines == reach(entity.deep_view()),
{
    if entity.entity.start_line <= entity.entity.end_line {
        entity.entity.end_line - entity.entity.start_line
    } else {
        0
    }
}

/// Picks the entity that reaches over the most lines.
pub fn deepest_focused_entity(entities: &[SemFocusedEntity]) -> (found: Option<SemFocusedEntity>)
    ensures
        found.deep_view() == widest(entities.deep_view()),
{
    let ghost all = entities.deep_view();
    if entities.len() == 0 {
        return None;
    }
    let mut best: usize = 0;
    let mut i: usize = 1;
    proof {
        assert(all.take(1).drop_last() =~= Seq::empty());
        assert(widest(all.take(1).drop_last()) is None);
        assert(all.take(1).last() == all[0]);
    }
    while i < entities.len()
        invariant
            best < i <= entities@.len(),
            all == entities.deep_view(),
            widest(all.take(i as int)) == Some(all[best as int]),
        decreases entities@.len() - i,
    {
        proof {
            assert(all.take(i + 1).drop_last() =~= all.take(i as int));
            assert(all.take(i + 1).last() == all[i as int]);
            assert(all[i as int] == entities@[i as int].deep_view());
            assert(all[best as int] == entities@[best as int].deep_view());
        }
        if reach_of(&entities[best]) <= reach_of(&entities[i]) {
            best = i;
        }
        i = i + 1;
    }
    assert(all.take(i as int) =~= all);
    Some(entities[best].clone())
}

// ---------------------------------------------------------------------------
// Changes in focus

/// Whether a hunk that touches a change is the one in focus.
pub open spec fn is_hunk_in_focus(overlap: OverlapView, hunk: HunkTargetView) -> bool {
    &&& overlap.file_path == hunk.file_path
    &&& hunk.hunk_index matches Some(index) ==> overlap.hunk_index == index
    &&& hunk.hunk_header matches Some(header) ==> overlap.hunk_header == Some(header)
}

/// Whether one of the entities in focus has an id.
pub open spec fn focus_has_id(entities: Seq<FocusedView>, id: Seq<char>) -> bool {
    exists|i: int| 0 <= i < entities.len() && (#[trigger] entities[i]).entity.id == id
}

/// Whether a hunk that touches a change is in focus.
pub open spec fn touched_by_focus(change: EmbeddedChangeView, hunk: HunkTargetView) -> bool {
    exists|i: int|
        0 <= i < change.hunk_overlaps.len() && is_hunk_in_focus(
            #[trigger] change.hunk_overlaps[i],
            hunk,
        )
}

/// Whether a change is in focus: it is of an entity in focus, of one with the
/// name of the target entity, or touched by the hunk in focus.
pub open spec fn in_focus(
    target: FocusTargetView,
    target_entity: Option<FocusedView>,
    entities: Seq<FocusedView>,
) -> spec_fn(EmbeddedChangeView) -> bool {
    |change: EmbeddedChangeView|
        {
            ||| focus_has_id(entities, change.change.entity_id)
            ||| target_entity matches Some(entity) && (entity.entity.id == change.change.entity_id
                || entity.entity.name == change.change.entity_name)
            ||| target.hunk matches Some(hunk) && touched_by_focus(change, hunk)
        }
}

fn has_focused_id(entities: &[SemFocusedEntity], id: &str) -> (found: bool)
    ensures
        found == focus_has_id(entities.deep_view(), id@),
{
    let ghost all = entities.deep_view();
    let mut i: usize = 0;
    while i < entities.len()
        invariant
            i <= entities@.len(),
            all == entities.deep_view(),
            forall|j: int| 0 <= j < i ==> (#[trigger] all[j]).entity.id != id@,
        decreases entities@.len() - i,
    {
        assert(all[i as int] == entities@[i as int].deep_view());
        if same_text(entities[i].entity.id.as_str(), id) {
            assert(all[i as int].entity.id == id@);
            return true;
        }
        i = i + 1;
    }
    false
}

fn is_touched_by_focus(change: &SemEmbeddedChange, hunk: &SemHunkTarget) -> (touched: bool)
    ensures
        touched == touched_by_focus(change.deep_view(), hunk.deep_view()),
{
    let ghost all = change.deep_view().hunk_overlaps;
    let mut i: usize = 0;
    while i < change.hunk_overlaps.len()
        invariant
            i <= change.hunk_overlaps@.len(),
            all == change.deep_view().hunk_overlaps,
            forall|j: int| 0 <= j < i ==> !is_hunk_in_focus(#[trigger] all[j], hunk.deep_view()),
        decreases change.hunk_overlaps@.len() - i,
    {
        let overlap = &change.hunk_overlaps[i];
        assert(all[i as int] == overlap.deep_view());
        let index_fits = match hunk.hunk_index {
            Some(index) => overlap.hunk_index == index,
            None => true,
        };
        let header_fits = match &hunk.hunk_header {
            Some(header) => option_is_text(&overlap.hunk_header, header.as_str()),
            None => true,
        };
        if index_fits && header_fits && same_text(
            overlap.file_path.as_str(),
            hunk.file_path.as_str(),
        ) {
            assert(is_hunk_in_focus(all[i as int], hunk.deep_view()));
            return true;
        }
        i = i + 1;
    }
    false
}

/// Picks the changes in focus.
pub fn focus_matching_changes(
    changes: &[SemEmbeddedChange],
    target: &SemFocusTarget,
    target_entity: &Option<SemFocusedEntity>,
    overlapping_entities: &[SemFocusedEntity],
) -> (matching: Vec<SemEmbeddedChange>)
    ensures
        matching.deep_view() == changes.deep_view().filter(
            in_focus(
                target.deep_view(),
                target_entity.deep_view(),
                overlapping_entities.deep_view(),
            ),
        ),
{
    let ghost all = changes.deep_view();
    let ghost wanted = in_focus(
        target.deep_view(),
        target_entity.deep_view(),
        overlapping_entities.deep_view(),
    );
    let mut matching: Vec<SemEmbeddedChange> = Vec::new();
    let mut i: usize = 0;
    proof {
        reveal(Seq::filter);
        assert(matching.deep_view() =~= all.take(0).filter(wanted));
    }
    while i < changes.len()
        invariant
            i <= changes@.len(),
            all == changes.deep_view(),
            wanted == in_focus(
                target.deep_view(),
                target_entity.deep_view(),
                overlapping_entities.deep_view(),
            ),
            matching.deep_view() == all.take(i as int).filter(wanted),
        decreases changes@.len() - i,
    {
        let change = &changes[i];
        proof {
            assert(all[i as int] == change.deep_view());
            lemma_filter_step(all, wanted, i as int);
        }
        let by_entity = match target_entity {
            Some(entity) => same_text(
                entity.entity.id.as_str(),
                change.change.entity_id.as_str(),
            ) || same_text(entity.entity.name.as_str(), change.change.entity_name.as_str()),
            None => false,
        };
        let by_hunk = match &target.hunk {
            Some(hunk) => is_touched_by_focus(change, hunk),
            None => false,
        };
        if by_entity || by_hunk || has_focused_id(
            overlapping_entities,
            change.change.entity_id.as_str(),
        ) {
            push_item(&mut matching, change.clone());
        }
        i = i + 1;
    }
    assert(all.take(i as int) =~= all);
    matching
}

// ---------------------------------------------------------------------------
// Resolutions

/// The entity that a target means: the one it names or else the widest in
/// focus.
pub open spec fn target_entity_of(
    target: FocusTargetView,
    before: Seq<EntityView>,
    after: Seq<EntityView>,
) -> Option<FocusedView> {
    let named = match target.entity {
        Some(entity) => named_entity(entity, before, after),
        None => None,
    };
    match named {
        Some(entity) => Some(entity),
        None => widest(entities_in_focus(target, before, after)),
    }
}

/// What a focus target is resolved to.
pub open spec fn focus_of<H: Fn(&str) -> String>(
    hash: H,
    changes: Seq<FileChangeView>,
    target: FocusTargetView,
    options: OptionsView,
    registry: RegistryView,
    result: DiffResultView,
) -> ResolutionView {
    let before = entities_before(registry, changes);
    let after = entities_after(registry, changes);
    let entities = entities_in_focus(target, before, after);
    let target_entity = target_entity_of(target, before, after);
    ResolutionView {
        api_version: SEM_EMBEDDED_API_VERSION@,
        cache_key: focus_key(hash, changes, target, options),
        target_entity,
        overlapping_entities: entities,
        matching_changes: analysis_of(
            hash,
            changes,
            options,
            registry,
            result,
        ).changes.filter(in_focus(target, target_entity, entities)),
        warnings: Seq::empty(),
    }
}

/// Resolves a focus target, unless the work is cancelled before it begins.
pub fn resolve_focus_target_with_execution<H: Fn(&str) -> String>(
    changes: &[SemFileChange],
    target: &SemFocusTarget,
    options: &SemEmbeddedOptions,
    execution: &SemExecutionContext<'_>,
    registry: &ParserRegistry,
    result: &DiffResult,
    hash: &H,
) -> (resolution: SemResult<SemFocusResolution>)
    requires
        is_content_hash(*hash),
    ensures
        may_be_told(execution, resolution is Err),
        match resolution {
            Ok(focus) => focus.deep_view() == focus_of(
                *hash,
                changes.deep_view(),
                target.deep_view(),
                options.deep_view(),
                registry.deep_view(),
                result.deep_view(),
            ),
            Err(error) => error.deep_view() == cancelled(),
        },
{
    if let Err(error) = ensure_not_cancelled(execution) {
        return Err(error);
    }
    let extracted = extract_change_entities(changes, registry);
    let analysis = analyze_file_changes(changes, options, registry, result, hash);
    let overlapping_entities = focus_entities(target, &extracted);
    let named: Option<SemFocusedEntity> = match &target.entity {
        Some(entity_target) => focus_entity_by_target(entity_target, &extracted),
        None => None,
    };
    let target_entity: Option<SemFocusedEntity> = match named {
        Some(entity) => Some(entity),
        None => deepest_focused_entity(slice_of(&overlapping_entities)),
    };
    let matching_changes = focus_matching_changes(
        slice_of(&analysis.changes),
        target,
        &target_entity,
        slice_of(&overlapping_entities),
    );
    let warnings: Vec<String> = Vec::new();
    assert(warnings.deep_view() =~= Seq::empty());
    Ok(
        SemFocusResolution {
            api_version: SEM_EMBEDDED_API_VERSION.to_string(),
            cache_key: focus_cache_key(changes, target, options, hash),
            target_entity,
            overlapping_entities,
            matching_changes,
            warnings,
        },
    )
}

/// Resolves a focus target.
pub fn resolve_focus_target<H: Fn(&str) -> String>(
    changes: &[SemFileChange],
    target: &SemFocusTarget,
    options: &SemEmbeddedOptions,
    registry: &ParserRegistry,
    result: &DiffResult,
    hash: &H,
) -> (resolution: SemResult<SemFocusResolution>)
    requires
        is_content_hash(*hash),
    ensures
        resolution is Ok,
        resolution->Ok_0.deep_view() == focus_of(
            *hash,
            changes.deep_view(),
            target.deep_view(),
            options.deep_view(),
            registry.deep_view(),
            result.deep_view(),
        ),
{
    resolve_focus_target_with_execution(
        changes,
        target,
        options,
        &SemExecutionContext::default(),
        registry,
        result,
        hash,
    )
}

// ---------------------------------------------------------------------------
// Laws

/// What is left of entities without repeats, and how it ends.
pub proof fn lemma_without_repeats(entities: Seq<FocusedView>)
    ensures
        without_repeats(entities).len() <= entities.len(),
        entities.len() > 0 ==> without_repeats(entities).len() > 0 && same_focus(
            without_repeats(entities).last(),
            entities.last(),
        ),
        forall|i: int|
            0 <= i < without_repeats(entities).len() ==> entities.contains(
                #[trigger] without_repeats(entities)[i],
            ),
        forall|i: int, j: int|
            0 <= i && i + 1 == j && j < without_repeats(entities).len() ==> !same_focus(
                #[trigger] without_repeats(entities)[i],
                #[trigger] without_repeats(entities)[j],
            ),
    decreases entities.len(),
{
    if entities.len() > 0 {
        let front = entities.drop_last();
        let before = without_repeats(front);
        let kept = without_repeats(entities);
        lemma_without_repeats(front);
        assert forall|i: int| 0 <= i < kept.len() implies entities.contains(#[trigger] kept[i]) by {
            if i < before.len() {
                assert(front.contains(before[i]));
                let k = choose|k: int| 0 <= k < front.len() && front[k] == before[i];
                assert(entities[k] == kept[i]);
            } else {
                assert(entities[entities.len() - 1] == kept[i]);
            }
        }
    }
}

/// The entities in focus are in the order of their places, and no two that
/// follow each other are the same entity on the same side.
pub proof fn law_entities_in_focus_are_in_order(
    target: FocusTargetView,
    before: Seq<EntityView>,
    after: Seq<EntityView>,
)
    ensures
        in_order(entities_in_focus(target, before, after), key_fn::<SemFocusedEntity>()),
        forall|i: int, j: int|
            0 <= i && i + 1 == j && j < entities_in_focus(target, before, after).len()
                ==> !same_focus(
                #[trigger] entities_in_focus(target, before, after)[i],
                #[trigger] entities_in_focus(target, before, after)[j],
            ),
{
    let all = focus_candidates(target, before, after);
    lemma_sorted_by(all, key_fn::<SemFocusedEntity>());
    lemma_without_repeats(sorted_by(all, key_fn::<SemFocusedEntity>()));
    lemma_repeats_keep_order(sorted_by(all, key_fn::<SemFocusedEntity>()));
}

proof fn lemma_repeats_keep_order(entities: Seq<FocusedView>)
    requires
        in_order(entities, key_fn::<SemFocusedEntity>()),
    ensures
        in_order(without_repeats(entities), key_fn::<SemFocusedEntity>()),
    decreases entities.len(),
{
    let key = key_fn::<SemFocusedEntity>();
    if entities.len() > 0 {
        let front = entities.drop_last();
        let before = without_repeats(front);
        let kept = without_repeats(entities);
        assert forall|i: int, j: int| 0 <= i <= j < front.len() implies !key_before(
            key(#[trigger] front[j]),
            key(#[trigger] front[i]),
        ) by {
            assert(!key_before(key(entities[j]), key(entities[i])));
        }
        lemma_repeats_keep_order(front);
        lemma_without_repeats(front);
        assert forall|i: int, j: int| 0 <= i <= j < kept.len() implies !key_before(
            key(#[trigger] kept[j]),
            key(#[trigger] kept[i]),
        ) by {
            if j < before.len() {
                assert(kept[i] == before[i] && kept[j] == before[j]);
            } else {
                let last = entities.len() - 1;
                if i < before.len() {
                    assert(front.contains(before[i]));
                    let k = choose|k: int| 0 <= k < front.len() && front[k] == before[i];
                    assert(!key_before(key(entities[last]), key(entities[k])));
                } else {
                    assert(!key_before(key(entities[last]), key(entities[last])));
                }
            }
        }
    }
}

/// What is in focus was found at the location or under the hunk, and of each
/// entity found there one is in focus on its side.
pub proof fn law_focus_holds_what_was_found(
    target: FocusTargetView,
    before: Seq<EntityView>,
    after: Seq<EntityView>,
)
    ensures
        forall|i: int|
            0 <= i < entities_in_focus(target, before, after).len() ==> focus_candidates(
                target,
                before,
                after,
            ).contains(#[trigger] entities_in_focus(target, before, after)[i]),
        forall|k: int|
            0 <= k < focus_candidates(target, before, after).len() ==> has_focus(
                entities_in_focus(target, before, after),
                #[trigger] focus_candidates(target, before, after)[k],
            ),
{
    broadcast use vstd::seq_lib::group_to_multiset_ensures;

    let all = focus_candidates(target, before, after);
    let sorted = sorted_by(all, key_fn::<SemFocusedEntity>());
    let kept = entities_in_focus(target, before, after);
    lemma_sorted_by(all, key_fn::<SemFocusedEntity>());
    lemma_without_repeats(sorted);
    assert forall|i: int| 0 <= i < kept.len() implies all.contains(#[trigger] kept[i]) by {
        assert(sorted.contains(kept[i]));
        assert(sorted.to_multiset().contains(kept[i]));
    }
    assert forall|k: int| 0 <= k < all.len() implies has_focus(kept, #[trigger] all[k]) by {
        assert(all.contains(all[k]));
        assert(all.to_multiset().contains(all[k]));
        assert(sorted.contains(all[k]));
        let m = choose|m: int| 0 <= m < sorted.len() && sorted[m] == all[k];
        lemma_repeat_is_kept(sorted, m);
    }
}

/// Whether an entity is among others, on its side.
pub open spec fn has_focus(entities: Seq<FocusedView>, entity: FocusedView) -> bool {
    exists|i: int| 0 <= i < entities.len() && same_focus(#[trigger] entities[i], entity)
}

proof fn lemma_repeat_is_kept(entities: Seq<FocusedView>, m: int)
    requires
        0 <= m < entities.len(),
    ensures
        has_focus(without_repeats(entities), entities[m]),
    decreases entities.len(),
{
    let front = entities.drop_last();
    let before = without_repeats(front);
    let kept = without_repeats(entities);
    if m < front.len() {
        lemma_repeat_is_kept(front, m);
        let i = choose|i: int|
            0 <= i < before.len() && same_focus(#[trigger] before[i], front[m]);
        assert(same_focus(kept[i], entities[m]));
    } else {
        lemma_without_repeats(entities);
        assert(same_focus(kept[kept.len() - 1], entities[m]));
    }
}

/// Without a name to go by, the target entity is one of the entities in focus,
/// and none of them reaches over more lines.
pub proof fn law_the_widest_entity_is_the_target(
    target: FocusTargetView,
    before: Seq<EntityView>,
    after: Seq<EntityView>,
)
    requires
        target.entity is None,
    ensures
        match target_entity_of(target, before, after) {
            Some(entity) => {
                &&& entities_in_focus(target, before, after).contains(entity)
                &&& forall|i: int|
                    0 <= i < entities_in_focus(target, before, after).len() ==> reach(
                        #[trigger] entities_in_focus(target, before, after)[i],
                    ) <= reach(entity)
            },
            None => entities_in_focus(target, before, after).len() == 0,
        },
{
    lemma_widest(entities_in_focus(target, before, after));
}

proof fn lemma_widest(entities: Seq<FocusedView>)
    ensures
        match widest(entities) {
            Some(best) => {
                &&& entities.contains(best)
                &&& forall|i: int|
                    0 <= i < entities.len() ==> reach(#[trigger] entities[i]) <= reach(best)
            },
            None => entities.len() == 0,
        },
    decreases entities.len(),
{
    if entities.len() > 0 {
        let front = entities.drop_last();
        lemma_widest(front);
        let best = widest(entities)->0;
        assert(entities[entities.len() - 1] == entities.last());
        if let Some(other) = widest(front) {
            let k = choose|k: int| 0 <= k < front.len() && front[k] == other;
            assert(entities[k] == other);
        }
        assert forall|i: int| 0 <= i < entities.len() implies reach(#[trigger] entities[i]) <= reach(
            best,
        ) by {
            if i < front.len() {
                assert(front[i] == entities[i]);
            }
        }
    }
}

} // verus!
