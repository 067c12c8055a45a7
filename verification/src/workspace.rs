//! The states that a reduction goes through.
//!
//! A [`ReduceWorkspace`] holds facts that are merged but not resolved, a [`ResolvedCache`] holds
//! them once the program is resolved. Resolving consumes the workspace, which keeps the two
//! apart.
use vstd::prelude::*;

use crate::artifact::CachedModule;
use crate::artifact::CachedReExport;
use crate::artifact::CacheView;
use crate::artifact::LibraryCache;
use crate::bundled_stubs::added_stubs;
use crate::bundled_stubs::with_stubs;
use crate::bundled_stubs::StubModule;
use crate::bundled_stubs::StubView;
use crate::merge::first_exports;
use crate::merge::is_coalesced;
use crate::merge::joined_class_facts;
use crate::merge::joined_modules;
use crate::merge::joined_re_exports;
use crate::merge::no_class_facts;
use crate::merge::ClassFactsView;
use crate::merge::MergedClassFacts;
use crate::names::views;
use crate::names::NameSet;
use crate::order::in_order;
use crate::reduce::prepared;
use crate::reduce::resolved;
use crate::resolution::ResolutionReply;
use crate::resolution::ResolutionRequest;

verus! {

/// Why caches cannot be reduced.
#[derive(Debug, Clone, Copy, PartialEq, Eq, Structural)]
pub enum ReduceError {
    /// There is no cache.
    EmptyCacheSet,
}

/// The facts of one or more libraries, merged but not resolved.
pub struct ReduceWorkspace {
    cache: LibraryCache,
    graph_only_stubs: NameSet,
    artifact_module_count: usize,
    merged: MergedClassFacts,
}

/// What a [`ReduceWorkspace`] records.
pub struct WorkspaceView {
    pub cache: CacheView,
    pub graph_only_stubs: Set<Seq<char>>,
    pub artifact_module_count: int,
    pub merged: ClassFactsView,
}

impl View for ReduceWorkspace {
    type V = WorkspaceView;

    closed spec fn view(&self) -> WorkspaceView {
        WorkspaceView {
            cache: self.cache@,
            graph_only_stubs: self.graph_only_stubs@,
            artifact_module_count: self.artifact_module_count as int,
            merged: self.merged@,
        }
    }
}

/// The workspace of one cache and the stubs, for what is known of classes.
pub open spec fn opened(
    cache: CacheView,
    stubs: Seq<StubView>,
    merged: ClassFactsView,
) -> WorkspaceView {
    WorkspaceView {
        cache: CacheView { modules: with_stubs(cache.modules, stubs), ..cache },
        graph_only_stubs: added_stubs(cache.modules, stubs),
        artifact_module_count: cache.modules.len() as int,
        merged,
    }
}

/// The order in which the caches behind the first are merged: the last comes first.
pub open spec fn merge_order(caches: Seq<CacheView>) -> Seq<CacheView> {
    if caches.len() <= 1 {
        Seq::empty()
    } else {
        seq![caches.last()] + caches.subrange(1, caches.len() - 1)
    }
}

/// Whether `merged` is `base` with the caches `deps` merged into it.
pub open spec fn is_merge_of(merged: CacheView, base: CacheView, deps: Seq<CacheView>) -> bool {
    &&& is_coalesced(merged.modules, base.modules + joined_modules(deps))
    &&& merged.re_exports == in_order::<CachedReExport>(
        first_exports(base.re_exports + joined_re_exports(deps)).to_set(),
    )
    &&& merged.class_bases == base.class_bases
    &&& merged.constructor_callees == base.constructor_callees
}

impl ReduceWorkspace {
    /// The workspace of a cache that is merged and already holds its stubs.
    pub fn from_merged(cache: LibraryCache, graph_only_stubs: NameSet) -> (r: Self)
        requires
            graph_only_stubs@.len() <= cache@.modules.len(),
        ensures
            r@ == (WorkspaceView {
                cache: cache@,
                graph_only_stubs: graph_only_stubs@,
                artifact_module_count: cache@.modules.len() - graph_only_stubs@.len(),
                merged: no_class_facts(),
            }),
    {
        let artifact_module_count = cache.modules.len() - graph_only_stubs.len();
        ReduceWorkspace {
            cache,
            graph_only_stubs,
            artifact_module_count,
            merged: MergedClassFacts::default(),
        }
    }

    /// The workspace of one cache and the stubs.
    pub fn single(cache: LibraryCache, stubs: Vec<StubModule>) -> (r: Self)
        ensures
            r@ == opened(cache@, views(stubs@), no_class_facts()),
    {
        Self::single_with(cache, stubs, MergedClassFacts::default())
    }

    /// The workspace of one cache whose dependencies are merged into it.
    fn single_with(
        cache: LibraryCache,
        stubs: Vec<StubModule>,
        merged: MergedClassFacts,
    ) -> (r: Self)
        ensures
            r@ == opened(cache@, views(stubs@), merged@),
    {
        let mut cache = cache;
        let artifact_module_count = cache.modules.len();
        let graph_only_stubs = cache.inject_bundled_stub_graph(stubs);
        ReduceWorkspace { cache, graph_only_stubs, artifact_module_count, merged }
    }

    /// The workspace of several caches, merged, and the stubs. The first cache is what the
    /// others are merged into.
    pub fn merge(caches: Vec<LibraryCache>, stubs: Vec<StubModule>) -> (r: Result<
        Self,
        ReduceError,
    >)
        ensures
            r is Err <==> caches@.len() == 0,
            r matches Err(error) ==> error == ReduceError::EmptyCacheSet,
            r matches Ok(workspace) ==> {
                let all = views(caches@);
                let deps = merge_order(all);
                if all.len() == 1 {
                    workspace@ == opened(all[0], views(stubs@), no_class_facts())
                } else {
                    exists|merged: CacheView| #[trigger]
                        is_merge_of(merged, all[0], deps) && workspace@ == opened(
                            merged,
                            views(stubs@),
                            joined_class_facts(deps),
                        )
                }
            },
    {
        if caches.len() == 0 {
            return Err(ReduceError::EmptyCacheSet);
        }
        let ghost all = views(caches@);
        let mut caches = caches;
        let mut cache = caches.swap_remove(0);
        let merged = if caches.len() == 0 {
            MergedClassFacts::default()
        } else {
            assert(views(caches@) =~= merge_order(all));
            cache.merge_dep_caches(caches)
        };
        proof {
            if all.len() > 1 {
                assert(is_merge_of(cache@, all[0], merge_order(all)));
            }
        }
        Ok(Self::single_with(cache, stubs, merged))
    }

    /// The merged facts.
    pub fn cache(&self) -> (r: &LibraryCache)
        ensures
            r@ == self@.cache,
    {
        &self.cache
    }

    /// How many modules there are, those of the stubs too.
    pub fn module_count(&self) -> (n: usize)
        ensures
            n == self@.cache.modules.len(),
    {
        self.cache.modules.len()
    }

    /// How many modules come from libraries.
    pub fn artifact_module_count(&self) -> (n: usize)
        ensures
            n == self@.artifact_module_count,
    {
        self.artifact_module_count
    }

    /// Resolves the program and consumes the workspace. `resolve_program` is asked once, with
    /// the settled cache.
    pub fn resolve<F: FnOnce(ResolutionRequest) -> ResolutionReply>(
        self,
        resolve_program: F,
    ) -> (r: ResolvedCache)
        requires
            forall|request: ResolutionRequest|
                request@ == prepared(self@.cache, self@.merged).request ==> #[trigger] call_requires(
                    resolve_program,
                    (request,),
                ),
        ensures
            exists|request: ResolutionRequest, reply: ResolutionReply| #[trigger]
                call_ensures(resolve_program, (request,), reply) && request@ == prepared(
                    self@.cache,
                    self@.merged,
                ).request && r@.cache == resolved(self@.cache, self@.merged, reply@),
            r@.graph_only_stubs == self@.graph_only_stubs,
    {
        let ReduceWorkspace { cache, graph_only_stubs, artifact_module_count: _, merged } = self;
        let mut cache = cache;
        cache.resolve_cross_library_errors(merged, resolve_program);
        ResolvedCache { cache, graph_only_stubs }
    }
}

/// The facts of one or more libraries once the program is resolved.
pub struct ResolvedCache {
    cache: LibraryCache,
    graph_only_stubs: NameSet,
}

/// What a [`ResolvedCache`] records.
pub struct ResolvedView {
    pub cache: CacheView,
    pub graph_only_stubs: Set<Seq<char>>,
}

impl View for ResolvedCache {
    type V = ResolvedView;

    closed spec fn view(&self) -> ResolvedView {
        ResolvedView { cache: self.cache@, graph_only_stubs: self.graph_only_stubs@ }
    }
}

impl ResolvedCache {
    /// The cache.
    pub fn resolved_cache(&self) -> (r: &LibraryCache)
        ensures
            r@ == self@.cache,
    {
        &self.cache
    }

    /// The modules.
    pub fn modules(&self) -> (r: &[CachedModule])
        ensures
            views(r@) == self@.cache.modules,
    {
        self.cache.modules.as_slice()
    }

    /// The names of the modules that only stubs provide.
    pub fn graph_only_stubs(&self) -> (r: &NameSet)
        ensures
            r@ == self@.graph_only_stubs,
    {
        &self.graph_only_stubs
    }

    /// The re-exports.
    pub fn re_exports(&self) -> (r: &[CachedReExport])
        ensures
            views(r@) == self@.cache.re_exports,
    {
        self.cache.exports.re_exports.as_slice()
    }
}

} // verus!
