//! Diffs at entity granularity, and indexes of entities.

use vstd::prelude::*;

use crate::collections::StringMap;
use crate::hash::is_content_hash;
use crate::keys::{diff_cache_key, diff_key, entity_index_cache_key, entity_index_key};
use crate::model::{
    ChangeView, DiffResult, DiffResultView, EntityView, FileChange, PlainFileChangeView,
    SemanticChange, SemanticEntity,
};
use crate::order::{
    in_order, key_fn, lemma_sorted_by, lemma_sorted_by_unique, sort_keyed, sorted_by, tells_apart,
};
use crate::parses::{
    after_file, before_file, before_path, parsed, ParserRegistry, RegistryView,
};
use crate::seqs::{
    first_where, flattened, lemma_filter_contains, lemma_filter_step, lemma_first_where_at,
    lemma_first_where_none, lemma_flattened_contains, lemma_flattened_multiset,
    lemma_flattened_step, lemma_mapped_multiset, push_item, push_items, slice_of,
};
use crate::text::{option_text_or, same_text, text_or};
use crate::types::{
    AnalysisView, EmbeddedChangeView, FileChangeView, FileInputView, HunkView, IndexView,
    OptionsView, OverlapView, RangeView, SemDiffAnalysis, SemDiffSummary, SemEmbeddedChange,
    SemEmbeddedOptions, SemEntityIndex, SemEntityRange, SemFileChange, SemFileInput,
    SemHunkOverlap, SemLineRange, SEM_EMBEDDED_API_VERSION,
};

verus! {

// ---------------------------------------------------------------------------
// What the differ takes and gives

/// A changed file without its hunks.
pub open spec fn plain_change(change: FileChangeView) -> PlainFileChangeView {
    PlainFileChangeView {
        file_path: change.file_path,
        status: change.status,
        old_file_path: change.old_file_path,
        before_content: change.before_content,
        after_content: change.after_content,
    }
}

/// A changed file as the differ takes it.
pub fn to_file_change(change: &SemFileChange) -> (plain: FileChange)
    ensures
        plain.deep_view() == plain_change(change.deep_view()),
{
    FileChange {
        file_path: change.file_path.clone(),
        status: change.status,
        old_file_path: change.old_file_path.clone(),
        before_content: change.before_content.clone(),
        after_content: change.after_content.clone(),
    }
}

/// The counts of a diff.
pub open spec fn summary_of(result: DiffResultView) -> SemDiffSummary {
    SemDiffSummary {
        file_count: result.file_count,
        added_count: result.added_count,
        modified_count: result.modified_count,
        deleted_count: result.deleted_count,
        moved_count: result.moved_count,
        renamed_count: result.renamed_count,
        reordered_count: result.reordered_count,
        orphan_count: result.orphan_count,
    }
}

/// The counts of a diff.
pub fn diff_summary(result: &DiffResult) -> (summary: SemDiffSummary)
    ensures
        summary == summary_of(result.deep_view()),
{
    SemDiffSummary {
        file_count: result.file_count,
        added_count: result.added_count,
        modified_count: result.modified_count,
        deleted_count: result.deleted_count,
        moved_count: result.moved_count,
        renamed_count: result.renamed_count,
        reordered_count: result.reordered_count,
        orphan_count: result.orphan_count,
    }
}

// ---------------------------------------------------------------------------
// The entities on both sides

/// The entities in a list of files.
pub open spec fn parsed_all(registry: RegistryView, files: Seq<FileInputView>) -> Seq<EntityView> {
    flattened(
        files.map_values(|file: FileInputView| parsed(registry, file.file_path, file.content)),
    )
}

/// The entities that changes bring on the before side.
pub open spec fn entities_before(registry: RegistryView, changes: Seq<FileChangeView>) -> Seq<
    EntityView,
> {
    flattened(
        changes.map_values(|change: FileChangeView| parsed_all(registry, before_file(change))),
    )
}

/// The entities that changes bring on the after side.
pub open spec fn entities_after(registry: RegistryView, changes: Seq<FileChangeView>) -> Seq<
    EntityView,
> {
    flattened(
        changes.map_values(|change: FileChangeView| parsed_all(registry, after_file(change))),
    )
}

/// Where the last entity with an id stands.
pub open spec fn last_index_of_id(entities: Seq<EntityView>, id: Seq<char>) -> Option<int>
    decreases entities.len(),
{
    if entities.len() == 0 {
        None
    } else if entities.last().id == id {
        Some(entities.len() - 1)
    } else {
        last_index_of_id(entities.drop_last(), id)
    }
}

pub proof fn lemma_last_index_of_id(entities: Seq<EntityView>, id: Seq<char>)
    ensures
        last_index_of_id(entities, id) matches Some(i) ==> 0 <= i < entities.len() && entities[i].id
            == id,
    decreases entities.len(),
{
    if entities.len() > 0 && entities.last().id != id {
        lemma_last_index_of_id(entities.drop_last(), id);
    }
}

/// Whether a map leads from each id to the last entity that has it.
pub open spec fn indexes_ids(map: Map<Seq<char>, usize>, entities: Seq<EntityView>) -> bool {
    forall|id: Seq<char>|
        #![trigger map.contains_key(id)]
        match last_index_of_id(entities, id) {
            Some(i) => map.contains_key(id) && map[id] == i,
            None => !map.contains_key(id),
        }
}

/// The entities on both sides of a set of changes, found by their ids.
pub struct ExtractedChangeEntities {
    pub before: Vec<SemanticEntity>,
    pub after: Vec<SemanticEntity>,
    pub before_by_id: StringMap<usize>,
    pub after_by_id: StringMap<usize>,
}

impl ExtractedChangeEntities {
    pub open spec fn wf(&self) -> bool {
        &&& self.before_by_id.wf()
        &&& self.after_by_id.wf()
        &&& indexes_ids(self.before_by_id@, self.before.deep_view())
        &&& indexes_ids(self.after_by_id@, self.after.deep_view())
    }
}

fn ids_index(entities: &Vec<SemanticEntity>) -> (map: StringMap<usize>)
    ensures
        map.wf(),
        indexes_ids(map@, entities.deep_view()),
{
    let ghost all = entities.deep_view();
    let mut map: StringMap<usize> = StringMap::new();
    let mut i: usize = 0;
    while i < entities.len()
        invariant
            i <= entities@.len(),
            all == entities.deep_view(),
            map.wf(),
            indexes_ids(map@, all.take(i as int)),
        decreases entities@.len() - i,
    {
        let ghost before = map@;
        map.insert(entities[i].id.clone(), i);
        proof {
            let shorter = all.take(i as int);
            let longer = all.take(i + 1);
            assert(longer.drop_last() =~= shorter);
            assert(longer.last() == all[i as int]);
            assert forall|id: Seq<char>|
                #![trigger map@.contains_key(id)]
                match last_index_of_id(longer, id) {
                    Some(n) => map@.contains_key(id) && map@[id] == n,
                    None => !map@.contains_key(id),
                } by {
                assert(before.contains_key(id) || !before.contains_key(id));
            }
        }
        i = i + 1;
    }
    assert(all.take(i as int) =~= all);
    map
}

/// Collects the entities on both sides of a set of changes. The content before
/// a change counts under the path that the file had then.
pub fn extract_change_entities(changes: &[SemFileChange], registry: &ParserRegistry) -> (extracted:
    ExtractedChangeEntities)
    ensures
        extracted.wf(),
        extracted.before.deep_view() == entities_before(registry.deep_view(), changes.deep_view()),
        extracted.after.deep_view() == entities_after(registry.deep_view(), changes.deep_view()),
{
    let ghost reg = registry.deep_view();
    let ghost befores = changes.deep_view().map_values(
        |change: FileChangeView| parsed_all(reg, before_file(change)),
    );
    let ghost afters = changes.deep_view().map_values(
        |change: FileChangeView| parsed_all(reg, after_file(change)),
    );
    let mut before: Vec<SemanticEntity> = Vec::new();
    let mut after: Vec<SemanticEntity> = Vec::new();
    let mut i: usize = 0;
    assert(before.deep_view() =~= flattened(befores.take(0)));
    assert(after.deep_view() =~= flattened(afters.take(0)));
    while i < changes.len()
        invariant
            i <= changes@.len(),
            reg == registry.deep_view(),
            befores == changes.deep_view().map_values(
                |change: FileChangeView| parsed_all(reg, before_file(change)),
            ),
            afters == changes.deep_view().map_values(
                |change: FileChangeView| parsed_all(reg, after_file(change)),
            ),
            before.deep_view() == flattened(befores.take(i as int)),
            after.deep_view() == flattened(afters.take(i as int)),
        decreases changes@.len() - i,
    {
        let change = &changes[i];
        let ghost view = changes.deep_view()[i as int];
        let ghost before_start = before.deep_view();
        let ghost after_start = after.deep_view();
        proof {
            lemma_flattened_step(befores, i as int);
            lemma_flattened_step(afters, i as int);
            lemma_parsed_one(reg, before_file(view));
            lemma_parsed_one(reg, after_file(view));
            assert(befores[i as int] == parsed_all(reg, before_file(view)));
            assert(afters[i as int] == parsed_all(reg, after_file(view)));
        }
        if let Some(content) = &change.before_content {
            let path = option_text_or(&change.old_file_path, change.file_path.as_str());
            push_items(&mut before, registry.extract_entities(path, content.as_str()));
        }
        assert(before.deep_view() =~= before_start + parsed_all(reg, before_file(view)));
        if let Some(content) = &change.after_content {
            push_items(
                &mut after,
                registry.extract_entities(change.file_path.as_str(), content.as_str()),
            );
        }
        assert(after.deep_view() =~= after_start + parsed_all(reg, after_file(view)));
        i = i + 1;
    }
    assert(befores.take(i as int) =~= befores);
    assert(afters.take(i as int) =~= afters);
    let before_by_id = ids_index(&before);
    let after_by_id = ids_index(&after);
    ExtractedChangeEntities { before, after, before_by_id, after_by_id }
}

/// The entities in at most one file.
pub proof fn lemma_parsed_one(registry: RegistryView, files: Seq<FileInputView>)
    requires
        files.len() <= 1,
    ensures
        parsed_all(registry, files) == if files.len() == 0 {
            Seq::empty()
        } else {
            parsed(registry, files[0].file_path, files[0].content)
        },
{
    let all = files.map_values(
        |file: FileInputView| parsed(registry, file.file_path, file.content),
    );
    if files.len() == 1 {
        assert(all.drop_last() =~= Seq::empty());
        assert(flattened(all.drop_last()) =~= Seq::empty());
        assert(flattened(all) =~= all.last());
    }
}

// ---------------------------------------------------------------------------
// Finding the entity of a change

/// Whether an entity has a content and, as far as they are given, a path, a
/// type and a name.
pub open spec fn has_content(
    content: Seq<char>,
    path: Option<Seq<char>>,
    kind: Option<(Seq<char>, Seq<char>)>,
) -> spec_fn(EntityView) -> bool {
    |entity: EntityView|
        {
            &&& entity.content == content
            &&& path matches Some(path) ==> entity.file_path == path
            &&& kind matches Some(kind) ==> entity.entity_type == kind.0 && entity.name == kind.1
        }
}

/// The entity with a content: the first one at a path with a type and a name,
/// the first one at the path, or the first one anywhere.
pub open spec fn entity_with_content(
    entities: Seq<EntityView>,
    path: Seq<char>,
    entity_type: Seq<char>,
    name: Seq<char>,
    content: Option<Seq<char>>,
) -> Option<EntityView> {
    match content {
        None => None,
        Some(content) => {
            let same = first_where(
                entities,
                has_content(content, Some(path), Some((entity_type, name))),
            );
            let near = first_where(entities, has_content(content, Some(path), None));
            if same is Some {
                same
            } else if near is Some {
                near
            } else {
                first_where(entities, has_content(content, None, None))
            }
        },
    }
}

/// The entity that a map leads to from an id, or else the one with a content.
pub open spec fn entity_found(
    entities: Seq<EntityView>,
    by_id: Map<Seq<char>, usize>,
    id: Seq<char>,
    path: Seq<char>,
    entity_type: Seq<char>,
    name: Seq<char>,
    content: Option<Seq<char>>,
) -> Option<EntityView> {
    if by_id.contains_key(id) && by_id[id] < entities.len() {
        Some(entities[by_id[id] as int])
    } else {
        entity_with_content(entities, path, entity_type, name, content)
    }
}

/// The entity that a change is about: the last one with its id, or else the one
/// with its content.
pub open spec fn entity_of_change(
    entities: Seq<EntityView>,
    id: Seq<char>,
    path: Seq<char>,
    entity_type: Seq<char>,
    name: Seq<char>,
    content: Option<Seq<char>>,
) -> Option<EntityView> {
    match last_index_of_id(entities, id) {
        Some(i) => Some(entities[i]),
        None => entity_with_content(entities, path, entity_type, name, content),
    }
}

/// A map that leads to the last entity with each id finds the entity that a
/// change is about.
proof fn lemma_entity_found(
    entities: Seq<EntityView>,
    by_id: Map<Seq<char>, usize>,
    id: Seq<char>,
    path: Seq<char>,
    entity_type: Seq<char>,
    name: Seq<char>,
    content: Option<Seq<char>>,
)
    requires
        indexes_ids(by_id, entities),
    ensures
        entity_found(entities, by_id, id, path, entity_type, name, content) == entity_of_change(
            entities,
            id,
            path,
            entity_type,
            name,
            content,
        ),
{
    lemma_last_index_of_id(entities, id);
    assert(by_id.contains_key(id) || !by_id.contains_key(id));
}

fn find_by_content<'a>(
    entities: &'a [SemanticEntity],
    content: &str,
    path: Option<&str>,
    kind: Option<(&str, &str)>,
) -> (found: Option<&'a SemanticEntity>)
    ensures
        found.deep_view() == first_where(
            entities.deep_view(),
            has_content(
                content@,
                path.deep_view(),
                match kind {
                    Some(kind) => Some((kind.0@, kind.1@)),
                    None => None,
                },
            ),
        ),
{
    let ghost all = entities.deep_view();
    let ghost kind_view = match kind {
        Some(kind) => Some((kind.0@, kind.1@)),
        None => None,
    };
    let ghost wanted = has_content(content@, path.deep_view(), kind_view);
    let mut i: usize = 0;
    while i < entities.len()
        invariant
            i <= entities@.len(),
            all == entities.deep_view(),
            kind_view == (match kind {
                Some(kind) => Some((kind.0@, kind.1@)),
                None => None,
            }),
            wanted == has_content(content@, path.deep_view(), kind_view),
            forall|j: int| 0 <= j < i ==> !wanted(#[trigger] all[j]),
        decreases entities@.len() - i,
    {
        let entity = &entities[i];
        assert(all[i as int] == entity.deep_view());
        let path_fits = match path {
            Some(path) => same_text(entity.file_path.as_str(), path),
            None => true,
        };
        let kind_fits = match kind {
            Some((entity_type, name)) => same_text(entity.entity_type.as_str(), entity_type)
                && same_text(entity.name.as_str(), name),
            None => true,
        };
        if path_fits && kind_fits && same_text(entity.content.as_str(), content) {
            proof {
                lemma_first_where_at(all, wanted, i as int);
            }
            return Some(entity);
        }
        i = i + 1;
    }
    proof {
        lemma_first_where_none(all, wanted);
    }
    None
}

/// Finds the entity that a map leads to from an id, or else the one with a
/// content.
pub fn entity_by_id_or_content<'a>(
    entities: &'a [SemanticEntity],
    by_id: &StringMap<usize>,
    entity_id: &str,
    file_path: &str,
    entity_type: &str,
    entity_name: &str,
    content: Option<&str>,
) -> (found: Option<&'a SemanticEntity>)
    requires
        by_id.wf(),
    ensures
        found.deep_view() == entity_found(
            entities.deep_view(),
            by_id@,
            entity_id@,
            file_path@,
            entity_type@,
            entity_name@,
            content.deep_view(),
        ),
{
    if let Some(at) = by_id.get(entity_id) {
        if *at < entities.len() {
            return Some(&entities[*at]);
        }
    }
    match content {
        None => None,
        Some(content) => {
            let same = find_by_content(
                entities,
                content,
                Some(file_path),
                Some((entity_type, entity_name)),
            );
            if same.is_some() {
                return same;
            }
            let near = find_by_content(entities, content, Some(file_path), None);
            if near.is_some() {
                return near;
            }
            find_by_content(entities, content, None, None)
        },
    }
}

/// Where an entity stands.
pub open spec fn range_of(entity: EntityView) -> RangeView {
    RangeView {
        file_path: entity.file_path,
        start_line: entity.start_line,
        end_line: entity.end_line,
    }
}

/// Where an entity stands.
pub fn entity_range(entity: &SemanticEntity) -> (range: SemEntityRange)
    ensures
        range.deep_view() == range_of(entity.deep_view()),
{
    SemEntityRange {
        file_path: entity.file_path.clone(),
        start_line: entity.start_line,
        end_line: entity.end_line,
    }
}

// ---------------------------------------------------------------------------
// Hunks

/// Whether the lines of an entity and of a hunk have one in common. Line zero
/// is no line.
pub open spec fn lines_overlap(start: usize, end: usize, hunk: SemLineRange) -> bool {
    &&& start > 0 && end > 0 && hunk.start_line > 0 && hunk.end_line > 0
    &&& start <= hunk.end_line
    &&& hunk.start_line <= end
}

/// Whether an entity and a hunk have a line in common.
pub fn ranges_overlap(entity: &SemEntityRange, hunk: &SemLineRange) -> (overlap: bool)
    ensures
        overlap == lines_overlap(entity.start_line, entity.end_line, *hunk),
{
    entity.start_line > 0 && entity.end_line > 0 && hunk.start_line > 0 && hunk.end_line > 0
        && entity.start_line <= hunk.end_line && hunk.start_line <= entity.end_line
}

/// Whether an entity stands in a file and a hunk of that file touches it.
pub open spec fn touched(
    range: Option<RangeView>,
    path: Seq<char>,
    hunk: Option<SemLineRange>,
) -> bool {
    match (range, hunk) {
        (Some(range), Some(hunk)) => range.file_path == path && lines_overlap(
            range.start_line,
            range.end_line,
            hunk,
        ),
        _ => false,
    }
}

/// How a hunk of a changed file touches an entity.
pub open spec fn overlap_of(
    change: FileChangeView,
    before: Option<RangeView>,
    after: Option<RangeView>,
) -> spec_fn(HunkView) -> OverlapView {
    |hunk: HunkView|
        OverlapView {
            hunk_id: hunk.hunk_id,
            hunk_index: hunk.hunk_index,
            hunk_header: hunk.hunk_header,
            file_path: change.file_path,
            old_file_path: change.old_file_path,
            old_range: hunk.old_range,
            new_range: hunk.new_range,
            overlaps_before: touched(before, before_path(change), hunk.old_range),
            overlaps_after: touched(after, change.file_path, hunk.new_range),
        }
}

/// Whether a hunk touches the entity on either side.
pub open spec fn touches() -> spec_fn(OverlapView) -> bool {
    |overlap: OverlapView| overlap.overlaps_before || overlap.overlaps_after
}

/// The hunks of one changed file that touch an entity.
pub open spec fn file_overlaps(
    change: FileChangeView,
    before: Option<RangeView>,
    after: Option<RangeView>,
) -> Seq<OverlapView> {
    change.hunks.map_values(overlap_of(change, before, after)).filter(touches())
}

/// The hunks of all changed files that touch an entity.
pub open spec fn hunk_overlaps(
    changes: Seq<FileChangeView>,
    before: Option<RangeView>,
    after: Option<RangeView>,
) -> Seq<OverlapView> {
    flattened(changes.map_values(|change: FileChangeView| file_overlaps(change, before, after)))
}

fn is_touched(range: &Option<SemEntityRange>, path: &str, hunk: Option<SemLineRange>) -> (yes: bool)
    ensures
        yes == touched(range.deep_view(), path@, hunk),
{
    match (range, hunk) {
        (Some(range), Some(hunk)) => same_text(range.file_path.as_str(), path) && ranges_overlap(
            range,
            &hunk,
        ),
        _ => false,
    }
}

fn overlaps_in_file(
    change: &SemFileChange,
    before_range: &Option<SemEntityRange>,
    after_range: &Option<SemEntityRange>,
) -> (overlaps: Vec<SemHunkOverlap>)
    ensures
        overlaps.deep_view() == file_overlaps(
            change.deep_view(),
            before_range.deep_view(),
            after_range.deep_view(),
        ),
{
    let ghost view = change.deep_view();
    let ghost make = overlap_of(view, before_range.deep_view(), after_range.deep_view());
    let ghost all = view.hunks.map_values(make);
    let old_path = option_text_or(&change.old_file_path, change.file_path.as_str());
    let mut overlaps: Vec<SemHunkOverlap> = Vec::new();
    let mut i: usize = 0;
    proof {
        reveal(Seq::filter);
        assert(overlaps.deep_view() =~= all.take(0).filter(touches()));
    }
    while i < change.hunks.len()
        invariant
            i <= change.hunks@.len(),
            view == change.deep_view(),
            old_path@ == before_path(view),
            make == overlap_of(view, before_range.deep_view(), after_range.deep_view()),
            all == view.hunks.map_values(make),
            overlaps.deep_view() == all.take(i as int).filter(touches()),
        decreases change.hunks@.len() - i,
    {
        let hunk = &change.hunks[i];
        let overlaps_before = is_touched(before_range, old_path, hunk.old_range);
        let overlaps_after = is_touched(after_range, change.file_path.as_str(), hunk.new_range);
        proof {
            assert(view.hunks[i as int] == hunk.deep_view());
            assert(all[i as int] == make(hunk.deep_view()));
            lemma_filter_step(all, touches(), i as int);
        }
        if overlaps_before || overlaps_after {
            push_item(
                &mut overlaps,
                SemHunkOverlap {
                    hunk_id: hunk.hunk_id.clone(),
                    hunk_index: hunk.hunk_index,
                    hunk_header: hunk.hunk_header.clone(),
                    file_path: change.file_path.clone(),
                    old_file_path: change.old_file_path.clone(),
                    old_range: hunk.old_range,
                    new_range: hunk.new_range,
                    overlaps_before,
                    overlaps_after,
                },
            );
        }
        i = i + 1;
    }
    assert(all.take(i as int) =~= all);
    overlaps
}

/// Collects the hunks that touch an entity, given where it stands on either
/// side.
pub fn hunk_overlaps_for_change(
    file_changes: &[SemFileChange],
    before_range: &Option<SemEntityRange>,
    after_range: &Option<SemEntityRange>,
) -> (overlaps: Vec<SemHunkOverlap>)
    ensures
        overlaps.deep_view() == hunk_overlaps(
            file_changes.deep_view(),
            before_range.deep_view(),
            after_range.deep_view(),
        ),
{
    let ghost all = file_changes.deep_view().map_values(
        |change: FileChangeView|
            file_overlaps(change, before_range.deep_view(), after_range.deep_view()),
    );
    let mut overlaps: Vec<SemHunkOverlap> = Vec::new();
    let mut i: usize = 0;
    assert(overlaps.deep_view() =~= flattened(all.take(0)));
    while i < file_changes.len()
        invariant
            i <= file_changes@.len(),
            all == file_changes.deep_view().map_values(
                |change: FileChangeView|
                    file_overlaps(change, before_range.deep_view(), after_range.deep_view()),
            ),
            overlaps.deep_view() == flattened(all.take(i as int)),
        decreases file_changes@.len() - i,
    {
        proof {
            lemma_flattened_step(all, i as int);
            assert(all[i as int] == file_overlaps(
                file_changes.deep_view()[i as int],
                before_range.deep_view(),
                after_range.deep_view(),
            ));
        }
        push_items(&mut overlaps, overlaps_in_file(&file_changes[i], before_range, after_range));
        i = i + 1;
    }
    assert(all.take(i as int) =~= all);
    overlaps
}

// ---------------------------------------------------------------------------
// Analyses

/// Where the entity of a change stood before it.
pub open spec fn range_before(change: ChangeView, before: Seq<EntityView>) -> Option<RangeView> {
    match entity_of_change(
        before,
        change.entity_id,
        text_or(change.old_file_path, change.file_path),
        change.entity_type,
        text_or(change.old_entity_name, change.entity_name),
        change.before_content,
    ) {
        Some(entity) => Some(range_of(entity)),
        None => None,
    }
}

/// Where the entity of a change stands after it.
pub open spec fn range_after(change: ChangeView, after: Seq<EntityView>) -> Option<RangeView> {
    match entity_of_change(
        after,
        change.entity_id,
        change.file_path,
        change.entity_type,
        change.entity_name,
        change.after_content,
    ) {
        Some(entity) => Some(range_of(entity)),
        None => None,
    }
}

/// A change with the places of its entity and the hunks that touch it.
pub open spec fn enriched(
    change: ChangeView,
    file_changes: Seq<FileChangeView>,
    before: Seq<EntityView>,
    after: Seq<EntityView>,
) -> EmbeddedChangeView {
    let before_range = range_before(change, before);
    let after_range = range_after(change, after);
    EmbeddedChangeView {
        change,
        before_range,
        after_range,
        hunk_overlaps: hunk_overlaps(file_changes, before_range, after_range),
    }
}

/// Adds to a change the places of its entity and the hunks that touch it.
pub fn enrich_change(
    change: SemanticChange,
    file_changes: &[SemFileChange],
    extracted: &ExtractedChangeEntities,
) -> (result: SemEmbeddedChange)
    requires
        extracted.wf(),
    ensures
        result.deep_view() == enriched(
            change.deep_view(),
            file_changes.deep_view(),
            extracted.before.deep_view(),
            extracted.after.deep_view(),
        ),
{
    let before_name = option_text_or(&change.old_entity_name, change.entity_name.as_str());
    let before_path = option_text_or(&change.old_file_path, change.file_path.as_str());
    let before_content: Option<&str> = match &change.before_content {
        Some(content) => Some(content.as_str()),
        None => None,
    };
    let after_content: Option<&str> = match &change.after_content {
        Some(content) => Some(content.as_str()),
        None => None,
    };
    proof {
        lemma_entity_found(
            extracted.before.deep_view(),
            extracted.before_by_id@,
            change.entity_id@,
            before_path@,
            change.entity_type@,
            before_name@,
            before_content.deep_view(),
        );
    }
    let before_range: Option<SemEntityRange> = match entity_by_id_or_content(
        slice_of(&extracted.before),
        &extracted.before_by_id,
        change.entity_id.as_str(),
        before_path,
        change.entity_type.as_str(),
        before_name,
        before_content,
    ) {
        Some(entity) => Some(entity_range(entity)),
        None => None,
    };
    proof {
        lemma_entity_found(
            extracted.after.deep_view(),
            extracted.after_by_id@,
            change.entity_id@,
            change.file_path@,
            change.entity_type@,
            change.entity_name@,
            after_content.deep_view(),
        );
    }
    let after_range: Option<SemEntityRange> = match entity_by_id_or_content(
        slice_of(&extracted.after),
        &extracted.after_by_id,
        change.entity_id.as_str(),
        change.file_path.as_str(),
        change.entity_type.as_str(),
        change.entity_name.as_str(),
        after_content,
    ) {
        Some(entity) => Some(entity_range(entity)),
        None => None,
    };
    let hunk_overlaps = hunk_overlaps_for_change(file_changes, &before_range, &after_range);
    SemEmbeddedChange { change, before_range, after_range, hunk_overlaps }
}

/// All changes of a diff with places and hunks.
pub open spec fn enriched_changes(
    result: Seq<ChangeView>,
    changes: Seq<FileChangeView>,
    registry: RegistryView,
) -> Seq<EmbeddedChangeView> {
    result.map_values(
        |change: ChangeView|
            enriched(
                change,
                changes,
                entities_before(registry, changes),
                entities_after(registry, changes),
            ),
    )
}

/// A diff at entity granularity.
pub open spec fn analysis_of<H: Fn(&str) -> String>(
    hash: H,
    changes: Seq<FileChangeView>,
    options: OptionsView,
    registry: RegistryView,
    result: DiffResultView,
) -> AnalysisView {
    AnalysisView {
        api_version: SEM_EMBEDDED_API_VERSION@,
        cache_key: diff_key(hash, changes, options),
        summary: summary_of(result),
        changes: enriched_changes(result.changes, changes, registry),
    }
}

/// Analyzes supplied contents before and after at entity granularity.
///
/// `registry` holds what the parsers found in the contents that
/// [`files_to_parse`](crate::parses::files_to_parse) lists, and `result` what
/// the differ found in the changes, each as [`to_file_change`] makes it.
pub fn analyze_file_changes<H: Fn(&str) -> String>(
    changes: &[SemFileChange],
    options: &SemEmbeddedOptions,
    registry: &ParserRegistry,
    result: &DiffResult,
    hash: &H,
) -> (analysis: SemDiffAnalysis)
    requires
        is_content_hash(*hash),
    ensures
        analysis.deep_view() == analysis_of(
            *hash,
            changes.deep_view(),
            options.deep_view(),
            registry.deep_view(),
            result.deep_view(),
        ),
{
    let ghost wanted = enriched_changes(
        result.deep_view().changes,
        changes.deep_view(),
        registry.deep_view(),
    );
    let extracted = extract_change_entities(changes, registry);
    let mut enriched_list: Vec<SemEmbeddedChange> = Vec::new();
    let mut i: usize = 0;
    assert(enriched_list.deep_view() =~= wanted.take(0));
    while i < result.changes.len()
        invariant
            i <= result.changes@.len(),
            extracted.wf(),
            extracted.before.deep_view() == entities_before(
                registry.deep_view(),
                changes.deep_view(),
            ),
            extracted.after.deep_view() == entities_after(
                registry.deep_view(),
                changes.deep_view(),
            ),
            wanted == enriched_changes(
                result.deep_view().changes,
                changes.deep_view(),
                registry.deep_view(),
            ),
            enriched_list.deep_view() == wanted.take(i as int),
        decreases result.changes@.len() - i,
    {
        push_item(
            &mut enriched_list,
            enrich_change(result.changes[i].clone(), changes, &extracted),
        );
        assert(result.deep_view().changes[i as int] == result.changes@[i as int].deep_view());
        assert(enriched_list.deep_view() =~= wanted.take(i + 1));
        i = i + 1;
    }
    assert(wanted.take(i as int) =~= wanted);
    SemDiffAnalysis {
        api_version: SEM_EMBEDDED_API_VERSION.to_string(),
        cache_key: diff_cache_key(changes, options, hash),
        summary: diff_summary(result),
        changes: enriched_list,
    }
}

/// The entities of a set of files, sorted by file and then by place.
pub open spec fn entity_index_of<H: Fn(&str) -> String>(
    hash: H,
    files: Seq<FileInputView>,
    options: OptionsView,
    registry: RegistryView,
) -> IndexView {
    IndexView {
        api_version: SEM_EMBEDDED_API_VERSION@,
        cache_key: entity_index_key(hash, files, options),
        entities: sorted_by(parsed_all(registry, files), key_fn::<SemanticEntity>()),
    }
}

/// Makes an index of the entities of a set of files.
pub fn extract_entity_index<H: Fn(&str) -> String>(
    files: &[SemFileInput],
    options: &SemEmbeddedOptions,
    registry: &ParserRegistry,
    hash: &H,
) -> (index: SemEntityIndex)
    requires
        is_content_hash(*hash),
    ensures
        index.deep_view() == entity_index_of(
            *hash,
            files.deep_view(),
            options.deep_view(),
            registry.deep_view(),
        ),
{
    let ghost reg = registry.deep_view();
    let ghost all = files.deep_view().map_values(
        |file: FileInputView| parsed(reg, file.file_path, file.content),
    );
    let mut entities: Vec<SemanticEntity> = Vec::new();
    let mut i: usize = 0;
    assert(entities.deep_view() =~= flattened(all.take(0)));
    while i < files.len()
        invariant
            i <= files@.len(),
            reg == registry.deep_view(),
            all == files.deep_view().map_values(
                |file: FileInputView| parsed(reg, file.file_path, file.content),
            ),
            entities.deep_view() == flattened(all.take(i as int)),
        decreases files@.len() - i,
    {
        proof {
            lemma_flattened_step(all, i as int);
        }
        push_items(
            &mut entities,
            registry.extract_entities(files[i].file_path.as_str(), files[i].content.as_str()),
        );
        i = i + 1;
    }
    assert(all.take(i as int) =~= all);
    SemEntityIndex {
        api_version: SEM_EMBEDDED_API_VERSION.to_string(),
        cache_key: entity_index_cache_key(files, options, hash),
        entities: sort_keyed(entities),
    }
}

// ---------------------------------------------------------------------------
// Laws

/// An index holds the entities of its files, each as often as it occurs there,
/// sorted by file and then by place.
pub proof fn law_index_holds_the_entities_in_order<H: Fn(&str) -> String>(
    hash: H,
    files: Seq<FileInputView>,
    options: OptionsView,
    registry: RegistryView,
)
    ensures
        ({
            let entities = entity_index_of(hash, files, options, registry).entities;
            &&& in_order(entities, key_fn::<SemanticEntity>())
            &&& entities.to_multiset() == parsed_all(registry, files).to_multiset()
        }),
{
    lemma_sorted_by(parsed_all(registry, files), key_fn::<SemanticEntity>());
}

/// The order of the files does not matter to an index, unless two different
/// entities have the same file, line and id.
pub proof fn law_index_ignores_the_order_of_files<H: Fn(&str) -> String>(
    hash: H,
    files: Seq<FileInputView>,
    other_files: Seq<FileInputView>,
    options: OptionsView,
    registry: RegistryView,
)
    requires
        files.to_multiset() == other_files.to_multiset(),
        tells_apart(parsed_all(registry, files), key_fn::<SemanticEntity>()),
    ensures
        entity_index_of(hash, files, options, registry).entities == entity_index_of(
            hash,
            other_files,
            options,
            registry,
        ).entities,
{
    let parse = |file: FileInputView| parsed(registry, file.file_path, file.content);
    lemma_mapped_multiset(files, other_files, parse);
    lemma_flattened_multiset(files.map_values(parse), other_files.map_values(parse));
    lemma_sorted_by_unique(
        parsed_all(registry, files),
        parsed_all(registry, other_files),
        key_fn::<SemanticEntity>(),
    );
}

/// A hunk is reported for a change just where it touches the entity of the
/// change on one side or the other.
pub proof fn law_hunks_are_reported_where_they_touch(
    changes: Seq<FileChangeView>,
    before: Option<RangeView>,
    after: Option<RangeView>,
    overlap: OverlapView,
)
    ensures
        hunk_overlaps(changes, before, after).contains(overlap) <==> (overlap.overlaps_before
            || overlap.overlaps_after) && exists|i: int, k: int|
            0 <= i < changes.len() && 0 <= k < changes[i].hunks.len() && overlap == overlap_of(
                #[trigger] changes[i],
                before,
                after,
            )(#[trigger] changes[i].hunks[k]),
{
    let f = |change: FileChangeView| file_overlaps(change, before, after);
    let lists = changes.map_values(f);
    lemma_flattened_contains(lists, overlap);
    if hunk_overlaps(changes, before, after).contains(overlap) {
        let i = choose|i: int| 0 <= i < lists.len() && (#[trigger] lists[i]).contains(overlap);
        let made = changes[i].hunks.map_values(overlap_of(changes[i], before, after));
        lemma_filter_contains(made, touches());
        let k = choose|k: int| 0 <= k < made.len() && made[k] == overlap;
        assert(overlap == overlap_of(changes[i], before, after)(changes[i].hunks[k]));
    }
    if (overlap.overlaps_before || overlap.overlaps_after) && exists|i: int, k: int|
        0 <= i < changes.len() && 0 <= k < changes[i].hunks.len() && overlap == overlap_of(
            #[trigger] changes[i],
            before,
            after,
        )(#[trigger] changes[i].hunks[k]) {
        let (i, k) = choose|i: int, k: int|
            0 <= i < changes.len() && 0 <= k < changes[i].hunks.len() && overlap == overlap_of(
                #[trigger] changes[i],
                before,
                after,
            )(#[trigger] changes[i].hunks[k]);
        let made = changes[i].hunks.map_values(overlap_of(changes[i], before, after));
        lemma_filter_contains(made, touches());
        assert(made[k] == overlap);
        assert(made.contains(overlap));
        assert(lists[i].contains(overlap));
    }
}

/// An analysis reports every change of the differ, in its order, and changes
/// nothing about it.
pub proof fn law_analysis_reports_every_change<H: Fn(&str) -> String>(
    hash: H,
    changes: Seq<FileChangeView>,
    options: OptionsView,
    registry: RegistryView,
    result: DiffResultView,
)
    ensures
        analysis_of(hash, changes, options, registry, result).changes.map_values(
            |change: EmbeddedChangeView| change.change,
        ) == result.changes,
{
    assert(analysis_of(hash, changes, options, registry, result).changes.map_values(
        |change: EmbeddedChangeView| change.change,
    ) =~= result.changes);
}

} // verus!
