//! Parsed files: which ones are needed, and what the parsers found in them.

use vstd::prelude::*;

use crate::model::{EntityView, SemanticEntity};
use crate::options::default_options;
use crate::order::{Key, Keyed, SortKey};
use crate::seqs::{
    first_where, flattened, lemma_first_where_at, lemma_first_where_none, lemma_flattened_step,
    push_item,
};
use crate::text::{option_text_or, same_text, text_or};
use crate::types::{
    FileChangeView, FileInputView, OptionsView, SemEmbeddedOptions, SemFileChange, SemFileInput,
};

verus! {

/// What a parser found in one file content.
#[derive(Debug)]
pub struct SemParse {
    pub file_path: String,
    pub content: String,
    pub entities: Vec<SemanticEntity>,
}

/// A [`SemParse`] as a mathematical value.
#[verifier::ext_equal]
pub struct ParseView {
    pub file_path: Seq<char>,
    pub content: Seq<char>,
    pub entities: Seq<EntityView>,
}

impl DeepView for SemParse {
    type V = ParseView;

    open spec fn deep_view(&self) -> ParseView {
        ParseView {
            file_path: self.file_path.deep_view(),
            content: self.content.deep_view(),
            entities: self.entities.deep_view(),
        }
    }
}

impl Clone for SemParse {
    fn clone(&self) -> (copy: Self)
        ensures
            copy.deep_view() == self.deep_view(),
    {
        let copy = SemParse {
            file_path: self.file_path.clone(),
            content: self.content.clone(),
            entities: self.entities.clone(),
        };
        assert(copy.entities.deep_view() =~= self.entities.deep_view());
        copy
    }
}

/// The parses at hand: what the parsers of the host found in the contents
/// that were given to them.
#[derive(Debug)]
pub struct ParserRegistry {
    pub parses: Vec<SemParse>,
}

/// A [`ParserRegistry`] as a mathematical value.
#[verifier::ext_equal]
pub struct RegistryView {
    pub parses: Seq<ParseView>,
}

impl DeepView for ParserRegistry {
    type V = RegistryView;

    open spec fn deep_view(&self) -> RegistryView {
        RegistryView {
            parses: self.parses.deep_view(),
        }
    }
}

/// Which configuration the parsers of the host are set up with.
#[derive(Debug, PartialEq, Eq)]
pub struct RegistryConfig {
    /// The directory whose `.semrc` is loaded.
    pub semrc_root: Option<String>,
    /// The directory whose `.gitattributes` is loaded.
    pub gitattributes_root: Option<String>,
}

/// A [`RegistryConfig`] as a mathematical value.
#[verifier::ext_equal]
pub struct RegistryConfigView {
    pub semrc_root: Option<Seq<char>>,
    pub gitattributes_root: Option<Seq<char>>,
}

impl DeepView for RegistryConfig {
    type V = RegistryConfigView;

    open spec fn deep_view(&self) -> RegistryConfigView {
        RegistryConfigView {
            semrc_root: self.semrc_root.deep_view(),
            gitattributes_root: self.gitattributes_root.deep_view(),
        }
    }
}

impl Clone for RegistryConfig {
    fn clone(&self) -> (copy: Self)
        ensures
            copy.deep_view() == self.deep_view(),
    {
        let copy = RegistryConfig {
            semrc_root: self.semrc_root.clone(),
            gitattributes_root: self.gitattributes_root.clone(),
        };
        copy
    }
}

/// The configuration that the options ask for, from their root or, where they
/// name none, from the fallback. Without a root nothing is loaded.
pub open spec fn registry_config(
    options: OptionsView,
    fallback_root: Option<Seq<char>>,
) -> RegistryConfigView {
    let root = match options.root {
        Some(root) => Some(root),
        None => fallback_root,
    };
    RegistryConfigView {
        semrc_root: if options.load_semrc {
            root
        } else {
            None
        },
        gitattributes_root: if options.load_gitattributes {
            root
        } else {
            None
        },
    }
}

/// Decides which configuration the parsers are set up with.
pub fn registry_for_options(options: &SemEmbeddedOptions, fallback_root: Option<&str>) -> (config:
    RegistryConfig)
    ensures
        config.deep_view() == registry_config(options.deep_view(), fallback_root.deep_view()),
{
    let root: Option<String> = match &options.root {
        Some(root) => Some(root.clone()),
        None => match fallback_root {
            Some(root) => Some(root.to_string()),
            None => None,
        },
    };
    RegistryConfig {
        semrc_root: if options.load_semrc {
            root.clone()
        } else {
            None
        },
        gitattributes_root: if options.load_gitattributes {
            root
        } else {
            None
        },
    }
}

/// By default nothing is loaded from a repository, whatever its root.
pub proof fn law_default_options_load_nothing(fallback_root: Option<Seq<char>>)
    ensures
        registry_config(default_options(), fallback_root) == (RegistryConfigView {
            semrc_root: None,
            gitattributes_root: None,
        }),
{
}

/// Whether a parse is that of a path with a content.
pub open spec fn is_parse_of(path: Seq<char>, content: Seq<char>) -> spec_fn(ParseView) -> bool {
    |parse: ParseView| parse.file_path == path && parse.content == content
}

/// The entities in a content under a path. There are none where no parser
/// read it.
pub open spec fn parsed(registry: RegistryView, path: Seq<char>, content: Seq<char>) -> Seq<
    EntityView,
> {
    match first_where(registry.parses, is_parse_of(path, content)) {
        Some(parse) => parse.entities,
        None => Seq::empty(),
    }
}

impl ParserRegistry {
    /// The entities that were found in a content under a path.
    pub fn extract_entities(&self, path: &str, content: &str) -> (entities: Vec<SemanticEntity>)
        ensures
            entities.deep_view() == parsed(self.deep_view(), path@, content@),
    {
        let ghost all = self.parses.deep_view();
        let ghost wanted = is_parse_of(path@, content@);
        let mut i: usize = 0;
        while i < self.parses.len()
            invariant
                i <= self.parses@.len(),
                all == self.parses.deep_view(),
                wanted == is_parse_of(path@, content@),
                forall|j: int| 0 <= j < i ==> !wanted(#[trigger] all[j]),
            decreases self.parses@.len() - i,
        {
            let parse = &self.parses[i];
            assert(all[i as int] == parse.deep_view());
            if same_text(parse.file_path.as_str(), path) && same_text(
                parse.content.as_str(),
                content,
            ) {
                proof {
                    lemma_first_where_at(all, wanted, i as int);
                }
                let entities = parse.entities.clone();
                assert(entities.deep_view() =~= parse.entities.deep_view());
                return entities;
            }
            i = i + 1;
        }
        proof {
            lemma_first_where_none(all, wanted);
        }
        let entities: Vec<SemanticEntity> = Vec::new();
        assert(entities.deep_view() =~= Seq::empty());
        entities
    }
}

// ---------------------------------------------------------------------------
// What has to be parsed

/// The path of a changed file on the before side.
pub open spec fn before_path(change: FileChangeView) -> Seq<char> {
    text_or(change.old_file_path, change.file_path)
}

/// The content before, under the path that the file had then.
pub open spec fn before_file(change: FileChangeView) -> Seq<FileInputView> {
    match change.before_content {
        Some(content) => seq![FileInputView { file_path: before_path(change), content }],
        None => Seq::empty(),
    }
}

/// The content after, under the path that the file has now.
pub open spec fn after_file(change: FileChangeView) -> Seq<FileInputView> {
    match change.after_content {
        Some(content) => seq![FileInputView { file_path: change.file_path, content }],
        None => Seq::empty(),
    }
}

/// All contents that a set of changes brings.
pub open spec fn changed_contents(changes: Seq<FileChangeView>) -> Seq<FileInputView> {
    flattened(changes.map_values(|change: FileChangeView| before_file(change) + after_file(change)))
}

/// Lists the contents that have to be parsed before changes can be analyzed.
pub fn files_to_parse(changes: &[SemFileChange]) -> (files: Vec<SemFileInput>)
    ensures
        files.deep_view() == changed_contents(changes.deep_view()),
{
    let ghost all = changes.deep_view().map_values(
        |change: FileChangeView| before_file(change) + after_file(change),
    );
    let mut files: Vec<SemFileInput> = Vec::new();
    let mut i: usize = 0;
    assert(files.deep_view() =~= flattened(all.take(0)));
    while i < changes.len()
        invariant
            i <= changes@.len(),
            all == changes.deep_view().map_values(
                |change: FileChangeView| before_file(change) + after_file(change),
            ),
            files.deep_view() == flattened(all.take(i as int)),
        decreases changes@.len() - i,
    {
        let change = &changes[i];
        let ghost before = files.deep_view();
        let ghost view = changes.deep_view()[i as int];
        if let Some(content) = &change.before_content {
            push_item(
                &mut files,
                SemFileInput {
                    file_path: option_text_or(
                        &change.old_file_path,
                        change.file_path.as_str(),
                    ).to_string(),
                    content: content.clone(),
                },
            );
        }
        assert(files.deep_view() =~= before + before_file(view));
        if let Some(content) = &change.after_content {
            push_item(
                &mut files,
                SemFileInput { file_path: change.file_path.clone(), content: content.clone() },
            );
        }
        proof {
            assert(files.deep_view() =~= before + (before_file(view) + after_file(view)));
            assert(all[i as int] == before_file(view) + after_file(view));
            lemma_flattened_step(all, i as int);
        }
        i = i + 1;
    }
    assert(all.take(i as int) =~= all);
    files
}

impl Keyed for SemanticEntity {
    /// Entities are sorted by their file, then by where they begin.
    open spec fn key_of(value: EntityView) -> Key {
        Key {
            text: value.file_path,
            first: value.start_line as int,
            second: 0,
            last: value.id,
        }
    }

    fn sort_key(&self) -> (key: SortKey) {
        SortKey {
            text: self.file_path.clone(),
            first: self.start_line,
            second: 0,
            last: self.id.clone(),
        }
    }
}

} // verus!
