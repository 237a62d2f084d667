//! Defaults, and the short ways to name a root or an entity.

use vstd::prelude::*;

use crate::types::{
    FocusTargetView, OptionsView, ScanOptionsView, SemEmbeddedOptions, SemEntityTarget,
    SemFocusTarget, SemImpactRequest, SemLayerGenerationOptions, SemRepoScanOptions, TargetView,
};

verus! {

/// Options that load nothing from the repository.
pub open spec fn default_options() -> OptionsView {
    OptionsView { root: None, load_semrc: false, load_gitattributes: false }
}

impl Default for SemEmbeddedOptions {
    /// Loads nothing from the repository: what is computed depends on the
    /// supplied contents alone.
    fn default() -> (options: Self)
        ensures
            options.deep_view() == default_options(),
    {
        SemEmbeddedOptions { root: None, load_semrc: false, load_gitattributes: false }
    }
}

impl SemEmbeddedOptions {
    /// The default options with the root that `root` converts to.
    pub fn with_root<R: Into<String>>(root: R) -> (options: SemEmbeddedOptions)
        ensures
            options.root is Some,
            call_ensures(<R as Into<String>>::into, (root,), options.root->0),
            !options.load_semrc,
            !options.load_gitattributes,
    {
        SemEmbeddedOptions {
            root: Some(root.into()),
            load_semrc: false,
            load_gitattributes: false,
        }
    }
}

impl Default for SemRepoScanOptions {
    fn default() -> (options: Self)
        ensures
            options.deep_view() == (ScanOptionsView {
                max_files: 2_000,
                max_file_bytes: 512_000,
                max_depth: 12,
                include_hidden: false,
                extra_skip_dirs: Seq::empty(),
            }),
    {
        let options = SemRepoScanOptions {
            max_files: 2_000,
            max_file_bytes: 512_000,
            max_depth: 12,
            include_hidden: false,
            extra_skip_dirs: Vec::new(),
        };
        assert(options.extra_skip_dirs.deep_view() =~= Seq::empty());
        options
    }
}

impl Default for SemEntityTarget {
    fn default() -> (target: Self)
        ensures
            target.deep_view() == (TargetView {
                entity_id: None,
                entity_name: None,
                file_path: None,
            }),
    {
        SemEntityTarget { entity_id: None, entity_name: None, file_path: None }
    }
}

impl SemEntityTarget {
    /// Names an entity by the id that `entity_id` converts to.
    pub fn by_id<I: Into<String>>(entity_id: I) -> (target: SemEntityTarget)
        ensures
            target.entity_id is Some,
            call_ensures(<I as Into<String>>::into, (entity_id,), target.entity_id->0),
            target.entity_name is None,
            target.file_path is None,
    {
        SemEntityTarget { entity_id: Some(entity_id.into()), entity_name: None, file_path: None }
    }

    /// Names an entity by the name that `entity_name` converts to.
    pub fn by_name<N: Into<String>>(entity_name: N) -> (target: SemEntityTarget)
        ensures
            target.entity_id is None,
            target.entity_name is Some,
            call_ensures(<N as Into<String>>::into, (entity_name,), target.entity_name->0),
            target.file_path is None,
    {
        SemEntityTarget {
            entity_id: None,
            entity_name: Some(entity_name.into()),
            file_path: None,
        }
    }
}

impl Default for SemFocusTarget {
    fn default() -> (target: Self)
        ensures
            target.deep_view() == (FocusTargetView { entity: None, location: None, hunk: None }),
    {
        SemFocusTarget { entity: None, location: None, hunk: None }
    }
}

impl Default for SemImpactRequest {
    fn default() -> (request: Self)
        ensures
            request == (SemImpactRequest { token_budget: 4_096, max_depth: 2 }),
    {
        SemImpactRequest { token_budget: 4_096, max_depth: 2 }
    }
}

impl Default for SemLayerGenerationOptions {
    fn default() -> (options: Self)
        ensures
            options == (SemLayerGenerationOptions { max_layers: 24, max_changes_per_layer: 24 }),
    {
        SemLayerGenerationOptions { max_layers: 24, max_changes_per_layer: 24 }
    }
}

} // verus!
