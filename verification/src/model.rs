//! The semantic model: what parsers, differs and graph builders hand over.

use vstd::prelude::*;

use crate::collections::StringMap;

verus! {

/// What happened to a file as a whole.
#[derive(Debug, Clone, Copy, PartialEq, Eq, Structural)]
pub enum FileStatus {
    Added,
    Modified,
    Deleted,
    Renamed,
}

impl DeepView for FileStatus {
    type V = FileStatus;

    open spec fn deep_view(&self) -> FileStatus {
        *self
    }
}

/// What happened to one entity.
#[derive(Debug, Clone, Copy, PartialEq, Eq, Structural)]
pub enum ChangeType {
    Added,
    Modified,
    Deleted,
    Moved,
    Renamed,
    Reordered,
}

impl DeepView for ChangeType {
    type V = ChangeType;

    open spec fn deep_view(&self) -> ChangeType {
        *self
    }
}

/// A named piece of source code, such as a function or a type, as a parser
/// found it in a file.
#[derive(Debug)]
pub struct SemanticEntity {
    pub id: String,
    pub file_path: String,
    pub entity_type: String,
    pub name: String,
    pub content: String,
    pub content_hash: String,
    /// The first line, counted from one.
    pub start_line: usize,
    /// The last line, counted from one.
    pub end_line: usize,
}

/// A [`SemanticEntity`] as a mathematical value.
#[verifier::ext_equal]
pub struct EntityView {
    pub id: Seq<char>,
    pub file_path: Seq<char>,
    pub entity_type: Seq<char>,
    pub name: Seq<char>,
    pub content: Seq<char>,
    pub content_hash: Seq<char>,
    pub start_line: usize,
    pub end_line: usize,
}

impl DeepView for SemanticEntity {
    type V = EntityView;

    open spec fn deep_view(&self) -> EntityView {
        EntityView {
            id: self.id.deep_view(),
            file_path: self.file_path.deep_view(),
            entity_type: self.entity_type.deep_view(),
            name: self.name.deep_view(),
            content: self.content.deep_view(),
            content_hash: self.content_hash.deep_view(),
            start_line: self.start_line.deep_view(),
            end_line: self.end_line.deep_view(),
        }
    }
}

impl Clone for SemanticEntity {
    fn clone(&self) -> (copy: Self)
        ensures
            copy.deep_view() == self.deep_view(),
    {
        let copy = SemanticEntity {
            id: self.id.clone(),
            file_path: self.file_path.clone(),
            entity_type: self.entity_type.clone(),
            name: self.name.clone(),
            content: self.content.clone(),
            content_hash: self.content_hash.clone(),
            start_line: self.start_line,
            end_line: self.end_line,
        };
        copy
    }
}

/// A change of one entity between two versions of the code.
#[derive(Debug)]
pub struct SemanticChange {
    pub entity_id: String,
    pub change_type: ChangeType,
    pub entity_type: String,
    pub entity_name: String,
    /// The name on the before side, where it was another one.
    pub old_entity_name: Option<String>,
    pub file_path: String,
    /// The path on the before side, where it was another one.
    pub old_file_path: Option<String>,
    pub before_content: Option<String>,
    pub after_content: Option<String>,
}

/// A [`SemanticChange`] as a mathematical value.
#[verifier::ext_equal]
pub struct ChangeView {
    pub entity_id: Seq<char>,
    pub change_type: ChangeType,
    pub entity_type: Seq<char>,
    pub entity_name: Seq<char>,
    pub old_entity_name: Option<Seq<char>>,
    pub file_path: Seq<char>,
    pub old_file_path: Option<Seq<char>>,
    pub before_content: Option<Seq<char>>,
    pub after_content: Option<Seq<char>>,
}

impl DeepView for SemanticChange {
    type V = ChangeView;

    open spec fn deep_view(&self) -> ChangeView {
        ChangeView {
            entity_id: self.entity_id.deep_view(),
            change_type: self.change_type.deep_view(),
            entity_type: self.entity_type.deep_view(),
            entity_name: self.entity_name.deep_view(),
            old_entity_name: self.old_entity_name.deep_view(),
            file_path: self.file_path.deep_view(),
            old_file_path: self.old_file_path.deep_view(),
            before_content: self.before_content.deep_view(),
            after_content: self.after_content.deep_view(),
        }
    }
}

impl Clone for SemanticChange {
    fn clone(&self) -> (copy: Self)
        ensures
            copy.deep_view() == self.deep_view(),
    {
        let copy = SemanticChange {
            entity_id: self.entity_id.clone(),
            change_type: self.change_type,
            entity_type: self.entity_type.clone(),
            entity_name: self.entity_name.clone(),
            old_entity_name: self.old_entity_name.clone(),
            file_path: self.file_path.clone(),
            old_file_path: self.old_file_path.clone(),
            before_content: self.before_content.clone(),
            after_content: self.after_content.clone(),
        };
        copy
    }
}

/// A changed file as the differ takes it.
#[derive(Debug)]
pub struct FileChange {
    pub file_path: String,
    pub status: FileStatus,
    pub old_file_path: Option<String>,
    pub before_content: Option<String>,
    pub after_content: Option<String>,
}

/// A [`FileChange`] as a mathematical value.
#[verifier::ext_equal]
pub struct PlainFileChangeView {
    pub file_path: Seq<char>,
    pub status: FileStatus,
    pub old_file_path: Option<Seq<char>>,
    pub before_content: Option<Seq<char>>,
    pub after_content: Option<Seq<char>>,
}

impl DeepView for FileChange {
    type V = PlainFileChangeView;

    open spec fn deep_view(&self) -> PlainFileChangeView {
        PlainFileChangeView {
            file_path: self.file_path.deep_view(),
            status: self.status.deep_view(),
            old_file_path: self.old_file_path.deep_view(),
            before_content: self.before_content.deep_view(),
            after_content: self.after_content.deep_view(),
        }
    }
}

impl Clone for FileChange {
    fn clone(&self) -> (copy: Self)
        ensures
            copy.deep_view() == self.deep_view(),
    {
        let copy = FileChange {
            file_path: self.file_path.clone(),
            status: self.status,
            old_file_path: self.old_file_path.clone(),
            before_content: self.before_content.clone(),
            after_content: self.after_content.clone(),
        };
        copy
    }
}

/// What the differ found in a set of file changes.
#[derive(Debug)]
pub struct DiffResult {
    pub changes: Vec<SemanticChange>,
    pub file_count: usize,
    pub added_count: usize,
    pub modified_count: usize,
    pub deleted_count: usize,
    pub moved_count: usize,
    pub renamed_count: usize,
    pub reordered_count: usize,
    pub orphan_count: usize,
}

/// A [`DiffResult`] as a mathematical value.
#[verifier::ext_equal]
pub struct DiffResultView {
    pub changes: Seq<ChangeView>,
    pub file_count: usize,
    pub added_count: usize,
    pub modified_count: usize,
    pub deleted_count: usize,
    pub moved_count: usize,
    pub renamed_count: usize,
    pub reordered_count: usize,
    pub orphan_count: usize,
}

impl DeepView for DiffResult {
    type V = DiffResultView;

    open spec fn deep_view(&self) -> DiffResultView {
        DiffResultView {
            changes: self.changes.deep_view(),
            file_count: self.file_count.deep_view(),
            added_count: self.added_count.deep_view(),
            modified_count: self.modified_count.deep_view(),
            deleted_count: self.deleted_count.deep_view(),
            moved_count: self.moved_count.deep_view(),
            renamed_count: self.renamed_count.deep_view(),
            reordered_count: self.reordered_count.deep_view(),
            orphan_count: self.orphan_count.deep_view(),
        }
    }
}

impl Clone for DiffResult {
    fn clone(&self) -> (copy: Self)
        ensures
            copy.deep_view() == self.deep_view(),
    {
        let copy = DiffResult {
            changes: self.changes.clone(),
            file_count: self.file_count,
            added_count: self.added_count,
            modified_count: self.modified_count,
            deleted_count: self.deleted_count,
            moved_count: self.moved_count,
            renamed_count: self.renamed_count,
            reordered_count: self.reordered_count,
            orphan_count: self.orphan_count,
        };
        assert(copy.changes.deep_view() =~= self.changes.deep_view());
        copy
    }
}

/// An entity as a node of the entity graph.
#[derive(Debug)]
pub struct EntityInfo {
    pub id: String,
    pub name: String,
    pub file_path: String,
}

/// An [`EntityInfo`] as a mathematical value.
#[verifier::ext_equal]
pub struct InfoView {
    pub id: Seq<char>,
    pub name: Seq<char>,
    pub file_path: Seq<char>,
}

impl DeepView for EntityInfo {
    type V = InfoView;

    open spec fn deep_view(&self) -> InfoView {
        InfoView {
            id: self.id.deep_view(),
            name: self.name.deep_view(),
            file_path: self.file_path.deep_view(),
        }
    }
}

impl Clone for EntityInfo {
    fn clone(&self) -> (copy: Self)
        ensures
            copy.deep_view() == self.deep_view(),
    {
        let copy = EntityInfo {
            id: self.id.clone(),
            name: self.name.clone(),
            file_path: self.file_path.clone(),
        };
        copy
    }
}

/// A reference of one entity to another: an edge of the entity graph.
#[derive(Debug)]
pub struct EntityRef {
    pub from_entity: String,
    pub to_entity: String,
    pub ref_type: String,
}

/// An [`EntityRef`] as a mathematical value.
#[verifier::ext_equal]
pub struct RefView {
    pub from_entity: Seq<char>,
    pub to_entity: Seq<char>,
    pub ref_type: Seq<char>,
}

impl DeepView for EntityRef {
    type V = RefView;

    open spec fn deep_view(&self) -> RefView {
        RefView {
            from_entity: self.from_entity.deep_view(),
            to_entity: self.to_entity.deep_view(),
            ref_type: self.ref_type.deep_view(),
        }
    }
}

impl Clone for EntityRef {
    fn clone(&self) -> (copy: Self)
        ensures
            copy.deep_view() == self.deep_view(),
    {
        let copy = EntityRef {
            from_entity: self.from_entity.clone(),
            to_entity: self.to_entity.clone(),
            ref_type: self.ref_type.clone(),
        };
        copy
    }
}

/// The entities of a code base, by their ids, and their references to one
/// another.
#[derive(Debug)]
pub struct EntityGraph {
    pub entities: StringMap<EntityInfo>,
    pub edges: Vec<EntityRef>,
}

/// An [`EntityGraph`] as a mathematical value.
#[verifier::ext_equal]
pub struct GraphView {
    pub entities: Map<Seq<char>, InfoView>,
    pub edges: Seq<RefView>,
}

impl DeepView for EntityGraph {
    type V = GraphView;

    open spec fn deep_view(&self) -> GraphView {
        GraphView {
            entities: self.entities.deep_view(),
            edges: self.edges.deep_view(),
        }
    }
}

/// A piece of context that a context builder chose for an entity.
#[derive(Debug)]
pub struct ContextEntry {
    pub entity_id: String,
    pub entity_name: String,
    pub entity_type: String,
    pub file_path: String,
    pub role: String,
    pub content: String,
    pub estimated_tokens: usize,
}

/// A [`ContextEntry`] as a mathematical value.
#[verifier::ext_equal]
pub struct RawContextView {
    pub entity_id: Seq<char>,
    pub entity_name: Seq<char>,
    pub entity_type: Seq<char>,
    pub file_path: Seq<char>,
    pub role: Seq<char>,
    pub content: Seq<char>,
    pub estimated_tokens: usize,
}

impl DeepView for ContextEntry {
    type V = RawContextView;

    open spec fn deep_view(&self) -> RawContextView {
        RawContextView {
            entity_id: self.entity_id.deep_view(),
            entity_name: self.entity_name.deep_view(),
            entity_type: self.entity_type.deep_view(),
            file_path: self.file_path.deep_view(),
            role: self.role.deep_view(),
            content: self.content.deep_view(),
            estimated_tokens: self.estimated_tokens.deep_view(),
        }
    }
}

impl Clone for ContextEntry {
    fn clone(&self) -> (copy: Self)
        ensures
            copy.deep_view() == self.deep_view(),
    {
        let copy = ContextEntry {
            entity_id: self.entity_id.clone(),
            entity_name: self.entity_name.clone(),
            entity_type: self.entity_type.clone(),
            file_path: self.file_path.clone(),
            role: self.role.clone(),
            content: self.content.clone(),
            estimated_tokens: self.estimated_tokens,
        };
        copy
    }
}

/// An entity that a graph query reached, and over how many references.
#[derive(Debug)]
pub struct ReachedEntity {
    pub entity: EntityInfo,
    pub depth: usize,
}

/// A [`ReachedEntity`] as a mathematical value.
#[verifier::ext_equal]
pub struct ReachedView {
    pub entity: InfoView,
    pub depth: usize,
}

impl DeepView for ReachedEntity {
    type V = ReachedView;

    open spec fn deep_view(&self) -> ReachedView {
        ReachedView {
            entity: self.entity.deep_view(),
            depth: self.depth.deep_view(),
        }
    }
}

impl Clone for ReachedEntity {
    fn clone(&self) -> (copy: Self)
        ensures
            copy.deep_view() == self.deep_view(),
    {
        let copy = ReachedEntity {
            entity: self.entity.clone(),
            depth: self.depth,
        };
        copy
    }
}

/// What is asked of an entity graph.
#[derive(Debug)]
pub struct SemGraphQuery {
    /// The entity that is asked about.
    pub entity_id: String,
    /// Over how many references its impact is followed.
    pub max_depth: usize,
    /// How much context there is room for.
    pub token_budget: usize,
}

/// A [`SemGraphQuery`] as a mathematical value.
#[verifier::ext_equal]
pub struct QueryView {
    pub entity_id: Seq<char>,
    pub max_depth: usize,
    pub token_budget: usize,
}

impl DeepView for SemGraphQuery {
    type V = QueryView;

    open spec fn deep_view(&self) -> QueryView {
        QueryView {
            entity_id: self.entity_id.deep_view(),
            max_depth: self.max_depth.deep_view(),
            token_budget: self.token_budget.deep_view(),
        }
    }
}

impl Clone for SemGraphQuery {
    fn clone(&self) -> (copy: Self)
        ensures
            copy.deep_view() == self.deep_view(),
    {
        let copy = SemGraphQuery {
            entity_id: self.entity_id.clone(),
            max_depth: self.max_depth,
            token_budget: self.token_budget,
        };
        copy
    }
}

/// What an entity graph answers to a [`SemGraphQuery`].
#[derive(Debug)]
pub struct SemGraphAnswers {
    /// What the entity refers to.
    pub dependencies: Vec<EntityInfo>,
    /// What refers to the entity.
    pub dependents: Vec<EntityInfo>,
    /// What a change of the entity reaches.
    pub impact: Vec<ReachedEntity>,
    /// The tests that a change of the entity reaches.
    pub tests: Vec<EntityInfo>,
    /// The context that was chosen for the entity.
    pub context: Vec<ContextEntry>,
}

/// A [`SemGraphAnswers`] as a mathematical value.
#[verifier::ext_equal]
pub struct AnswersView {
    pub dependencies: Seq<InfoView>,
    pub dependents: Seq<InfoView>,
    pub impact: Seq<ReachedView>,
    pub tests: Seq<InfoView>,
    pub context: Seq<RawContextView>,
}

impl DeepView for SemGraphAnswers {
    type V = AnswersView;

    open spec fn deep_view(&self) -> AnswersView {
        AnswersView {
            dependencies: self.dependencies.deep_view(),
            dependents: self.dependents.deep_view(),
            impact: self.impact.deep_view(),
            tests: self.tests.deep_view(),
            context: self.context.deep_view(),
        }
    }
}

impl Clone for SemGraphAnswers {
    fn clone(&self) -> (copy: Self)
        ensures
            copy.deep_view() == self.deep_view(),
    {
        let copy = SemGraphAnswers {
            dependencies: self.dependencies.clone(),
            dependents: self.dependents.clone(),
            impact: self.impact.clone(),
            tests: self.tests.clone(),
            context: self.context.clone(),
        };
        assert(copy.dependencies.deep_view() =~= self.dependencies.deep_view());
        assert(copy.dependents.deep_view() =~= self.dependents.deep_view());
        assert(copy.impact.deep_view() =~= self.impact.deep_view());
        assert(copy.tests.deep_view() =~= self.tests.deep_view());
        assert(copy.context.deep_view() =~= self.context.deep_view());
        copy
    }
}

} // verus!
