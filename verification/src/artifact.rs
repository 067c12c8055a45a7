//! What one library's artifact records.
use vstd::prelude::*;

use crate::errors::CachedError;
use crate::errors::ErrorView;
use crate::names::absorb;
use crate::names::lemma_views_push;
use crate::names::views;
use crate::names::ModuleName;
use crate::names::NameMap;
use crate::names::NameSet;
use crate::order::sort_dedup;
use crate::order::in_order;
use crate::order::is_strictly_sorted;
use crate::order::SortKey;
use crate::order::UniqueKey;
use crate::safety::CandidateView;
use crate::safety::FunctionSafetyInfo;
use crate::safety::MutationCandidate;
use crate::safety::SafetyFacts;
use crate::text::is_text_before;
use crate::text::lemma_text_before_irreflexive;
use crate::text::lemma_text_before_total;
use crate::text::lemma_text_before_transitive;
use crate::text::text_before;

verus! {

/// What the analysis of a module found.
#[derive(Debug, PartialEq, Eq)]
pub struct CachedModuleSafety {
    /// What keeps the module from being imported lazily.
    pub errors: Vec<CachedError>,
    /// What makes the module load its own imports eagerly.
    pub force_imports_eager_overrides: Vec<CachedError>,
    /// Submodules that are used without being imported.
    pub implicit_imports: Vec<ModuleName>,
}

/// What a [`CachedModuleSafety`] records.
pub struct FindingsView {
    pub errors: Seq<ErrorView>,
    pub overrides: Seq<ErrorView>,
    pub implicit_imports: Seq<Seq<char>>,
}

impl View for CachedModuleSafety {
    type V = FindingsView;

    open spec fn view(&self) -> FindingsView {
        FindingsView {
            errors: views(self.errors@),
            overrides: views(self.force_imports_eager_overrides@),
            implicit_imports: views(self.implicit_imports@),
        }
    }
}

/// The outcome of analysing a module.
#[derive(Debug, PartialEq, Eq)]
pub enum CachedSafety {
    Analyzed(CachedModuleSafety),
    AnalysisError { message: String },
}

/// What a [`CachedSafety`] records.
pub enum SafetyView {
    Analyzed(FindingsView),
    AnalysisError { message: Seq<char> },
}

impl View for CachedSafety {
    type V = SafetyView;

    open spec fn view(&self) -> SafetyView {
        match self {
            CachedSafety::Analyzed(findings) => SafetyView::Analyzed(findings@),
            CachedSafety::AnalysisError { message } => SafetyView::AnalysisError {
                message: message@,
            },
        }
    }
}

/// One module of a library.
pub struct CachedModule {
    pub name: ModuleName,
    pub safety: CachedSafety,
    /// Modules that are imported and known.
    pub imports: NameSet,
    /// Imports that resolved to no module of the library.
    pub missing_imports: NameSet,
    /// `X.Y` for each `from X import Y` where `X` is known and `X.Y` is not.
    pub ambiguous_imports: NameSet,
    /// Modules that are imported for their effect.
    pub side_effect_imports: NameSet,
    /// The verdicts on the module's functions, by their name inside the module.
    pub function_safety: NameMap<FunctionSafetyInfo>,
    /// Calls whose safety hangs on other modules.
    pub mutation_candidates: Vec<MutationCandidate>,
}

/// What a [`CachedModule`] records.
pub struct ModuleView {
    pub name: Seq<char>,
    pub safety: SafetyView,
    pub imports: Set<Seq<char>>,
    pub missing_imports: Set<Seq<char>>,
    pub ambiguous_imports: Set<Seq<char>>,
    pub side_effect_imports: Set<Seq<char>>,
    pub function_safety: Map<Seq<char>, SafetyFacts>,
    pub mutation_candidates: Seq<CandidateView>,
}

impl View for CachedModule {
    type V = ModuleView;

    open spec fn view(&self) -> ModuleView {
        ModuleView {
            name: self.name@,
            safety: self.safety@,
            imports: self.imports@,
            missing_imports: self.missing_imports@,
            ambiguous_imports: self.ambiguous_imports@,
            side_effect_imports: self.side_effect_imports@,
            function_safety: self.function_safety@,
            mutation_candidates: views(self.mutation_candidates@),
        }
    }
}

/// The record of a module of which nothing is known but its name.
pub open spec fn empty_module(name: Seq<char>) -> ModuleView {
    ModuleView {
        name,
        safety: SafetyView::Analyzed(
            FindingsView {
                errors: Seq::empty(),
                overrides: Seq::empty(),
                implicit_imports: Seq::empty(),
            },
        ),
        imports: Set::empty(),
        missing_imports: Set::empty(),
        ambiguous_imports: Set::empty(),
        side_effect_imports: Set::empty(),
        function_safety: Map::empty(),
        mutation_candidates: Seq::empty(),
    }
}

impl CachedModule {
    /// The record of a module of which nothing is known but its name.
    pub fn empty(name: ModuleName) -> (r: CachedModule)
        ensures
            r@ == empty_module(name@),
    {
        let findings = CachedModuleSafety {
            errors: Vec::new(),
            force_imports_eager_overrides: Vec::new(),
            implicit_imports: Vec::new(),
        };
        let r = CachedModule {
            name,
            safety: CachedSafety::Analyzed(findings),
            imports: NameSet::new(),
            missing_imports: NameSet::new(),
            ambiguous_imports: NameSet::new(),
            side_effect_imports: NameSet::new(),
            function_safety: NameMap::new(),
            mutation_candidates: Vec::new(),
        };
        proof {
            assert(views(findings.errors@) =~= Seq::<ErrorView>::empty());
            assert(views(findings.force_imports_eager_overrides@) =~= Seq::<ErrorView>::empty());
            assert(views(findings.implicit_imports@) =~= Seq::<Seq<char>>::empty());
            assert(views(r.mutation_candidates@) =~= Seq::<CandidateView>::empty());
        }
        r
    }

    /// Whether the module was analysed and no error is held against it.
    pub fn is_safe(&self) -> (r: bool)
        ensures
            r == (self@.safety matches SafetyView::Analyzed(findings) && findings.errors.len() == 0),
    {
        match &self.safety {
            CachedSafety::Analyzed(findings) => findings.errors.len() == 0,
            CachedSafety::AnalysisError { .. } => false,
        }
    }
}

/// A name that a module takes from another and offers as its own.
#[derive(Debug, PartialEq, Eq)]
pub struct CachedReExport {
    pub exported_module: ModuleName,
    pub exported_attr: String,
    pub imported_module: ModuleName,
    pub imported_attr: String,
}

/// What a [`CachedReExport`] records.
pub struct ReExportView {
    pub exported_module: Seq<char>,
    pub exported_attr: Seq<char>,
    pub imported_module: Seq<char>,
    pub imported_attr: Seq<char>,
}

impl View for CachedReExport {
    type V = ReExportView;

    open spec fn view(&self) -> ReExportView {
        ReExportView {
            exported_module: self.exported_module@,
            exported_attr: self.exported_attr@,
            imported_module: self.imported_module@,
            imported_attr: self.imported_attr@,
        }
    }
}

/// Whether one re-export stands before another: by what is exported, then by where it
/// comes from.
pub open spec fn re_export_before(a: ReExportView, b: ReExportView) -> bool {
    if a.exported_module != b.exported_module {
        text_before(a.exported_module, b.exported_module)
    } else if a.exported_attr != b.exported_attr {
        text_before(a.exported_attr, b.exported_attr)
    } else if a.imported_module != b.imported_module {
        text_before(a.imported_module, b.imported_module)
    } else {
        text_before(a.imported_attr, b.imported_attr)
    }
}

impl SortKey for CachedReExport {
    type Key = ReExportView;

    open spec fn key(value: ReExportView) -> ReExportView {
        value
    }

    open spec fn before(a: ReExportView, b: ReExportView) -> bool {
        re_export_before(a, b)
    }

    proof fn irreflexive(a: ReExportView) {
        lemma_text_before_irreflexive(a.imported_attr);
    }

    proof fn transitive(a: ReExportView, b: ReExportView, c: ReExportView) {
        lemma_text_before_irreflexive(a.exported_module);
        lemma_text_before_irreflexive(a.exported_attr);
        lemma_text_before_irreflexive(a.imported_module);
        if a.exported_module != b.exported_module && b.exported_module != c.exported_module {
            lemma_text_before_transitive(a.exported_module, b.exported_module, c.exported_module);
        } else if a.exported_module == b.exported_module && b.exported_module
            == c.exported_module {
            if a.exported_attr != b.exported_attr && b.exported_attr != c.exported_attr {
                lemma_text_before_transitive(a.exported_attr, b.exported_attr, c.exported_attr);
            } else if a.exported_attr == b.exported_attr && b.exported_attr == c.exported_attr {
                if a.imported_module != b.imported_module && b.imported_module
                    != c.imported_module {
                    lemma_text_before_transitive(
                        a.imported_module,
                        b.imported_module,
                        c.imported_module,
                    );
                } else if a.imported_module == b.imported_module && b.imported_module
                    == c.imported_module {
                    lemma_text_before_transitive(a.imported_attr, b.imported_attr, c.imported_attr);
                }
            }
        }
    }

    proof fn total(a: ReExportView, b: ReExportView) {
        lemma_text_before_total(a.exported_module, b.exported_module);
        lemma_text_before_total(a.exported_attr, b.exported_attr);
        lemma_text_before_total(a.imported_module, b.imported_module);
        lemma_text_before_total(a.imported_attr, b.imported_attr);
    }

    fn is_before(&self, other: &Self) -> (r: bool) {
        if !self.exported_module.same(&other.exported_module) {
            is_text_before(self.exported_module.as_str(), other.exported_module.as_str())
        } else if self.exported_attr != other.exported_attr {
            is_text_before(self.exported_attr.as_str(), other.exported_attr.as_str())
        } else if !self.imported_module.same(&other.imported_module) {
            is_text_before(self.imported_module.as_str(), other.imported_module.as_str())
        } else {
            is_text_before(self.imported_attr.as_str(), other.imported_attr.as_str())
        }
    }
}

impl UniqueKey for CachedReExport {
    proof fn key_tells_apart(a: ReExportView, b: ReExportView) {
    }
}

/// The names that a library's modules offer.
#[derive(Debug, PartialEq, Eq)]
pub struct CachedExports {
    pub re_exports: Vec<CachedReExport>,
}

impl CachedExports {
    /// Puts the re-exports in order and keeps one of each.
    pub fn sort_and_dedup(&mut self)
        ensures
            is_strictly_sorted::<CachedReExport>(views(final(self).re_exports@)),
            views(final(self).re_exports@) == in_order::<CachedReExport>(
                views(old(self).re_exports@).to_set(),
            ),
    {
        let mut re_exports: Vec<CachedReExport> = Vec::new();
        std::mem::swap(&mut self.re_exports, &mut re_exports);
        self.re_exports = sort_dedup(re_exports);
    }
}

/// A method that runs when a class is instantiated. Without an owner, the class itself
/// defines it.
#[derive(Debug, PartialEq, Eq)]
pub struct DerivedCallee {
    pub owner: Option<ModuleName>,
    pub method: String,
}

impl View for DerivedCallee {
    type V = (Option<Seq<char>>, Seq<char>);

    open spec fn view(&self) -> (Option<Seq<char>>, Seq<char>) {
        let owner = match self.owner {
            Some(owner) => Some(owner@),
            None => None,
        };
        (owner, self.method@)
    }
}

impl DerivedCallee {
    /// Whether both are the same method.
    pub fn same(&self, other: &DerivedCallee) -> (r: bool)
        ensures
            r == (self@ == other@),
    {
        let same_owner = match (&self.owner, &other.owner) {
            (Some(a), Some(b)) => a.same(b),
            (None, None) => true,
            _ => false,
        };
        same_owner && self.method == other.method
    }
}

/// What runs when a class is instantiated.
#[derive(Debug, PartialEq, Eq)]
pub struct ConstructorCallees {
    /// Methods, by the class that defines them.
    pub derived: Vec<DerivedCallee>,
    /// Any other callee, by its full name.
    pub extra: Vec<ModuleName>,
}

/// What a [`ConstructorCallees`] records.
pub struct CalleesView {
    pub derived: Seq<(Option<Seq<char>>, Seq<char>)>,
    pub extra: Seq<Seq<char>>,
}

impl CalleesView {
    /// The callees that either side records.
    pub open spec fn merged_with(self, other: CalleesView) -> CalleesView {
        CalleesView {
            derived: absorb(self.derived, other.derived),
            extra: absorb(self.extra, other.extra),
        }
    }

    /// Whether nothing is recorded.
    pub open spec fn is_empty(self) -> bool {
        self.derived.len() == 0 && self.extra.len() == 0
    }

    /// The methods with the class that defines each, for the class named `class`.
    pub open spec fn owned_by(self, class: Seq<char>) -> Seq<(Seq<char>, Seq<char>)> {
        Seq::new(
            self.derived.len(),
            |i: int|
                (
                    match self.derived[i].0 {
                        Some(owner) => owner,
                        None => class,
                    },
                    self.derived[i].1,
                ),
        )
    }
}

impl View for ConstructorCallees {
    type V = CalleesView;

    open spec fn view(&self) -> CalleesView {
        CalleesView { derived: views(self.derived@), extra: views(self.extra@) }
    }
}

impl Default for ConstructorCallees {
    fn default() -> (r: Self)
        ensures
            r@.is_empty(),
    {
        ConstructorCallees { derived: Vec::new(), extra: Vec::new() }
    }
}

impl ConstructorCallees {
    /// Whether nothing is recorded.
    pub fn is_empty(&self) -> (r: bool)
        ensures
            r == self@.is_empty(),
    {
        self.derived.len() == 0 && self.extra.len() == 0
    }

    /// The methods with the class that defines each, for the class named `class`.
    pub fn iter(&self, class: &ModuleName) -> (r: Vec<(ModuleName, String)>)
        ensures
            r@.len() == self@.derived.len(),
            forall|i: int|
                0 <= i < r@.len() ==> {
                    let callee = #[trigger] r@[i];
                    (callee.0@, callee.1@) == self@.owned_by(class@)[i]
                },
    {
        let mut r: Vec<(ModuleName, String)> = Vec::new();
        for i in 0..self.derived.len()
            invariant
                r@.len() == i,
                forall|j: int|
                    0 <= j < i ==> {
                        let callee = #[trigger] r@[j];
                        (callee.0@, callee.1@) == self@.owned_by(class@)[j]
                    },
        {
            let callee = &self.derived[i];
            let owner = match &callee.owner {
                Some(owner) => owner.clone(),
                None => class.clone(),
            };
            assert(self@.derived[i as int] == callee@);
            r.push((owner, callee.method.clone()));
        }
        r
    }

    /// The callees that either side records, those of `self` first.
    pub fn merged_with(self, other: ConstructorCallees) -> (r: ConstructorCallees)
        ensures
            r@ == self@.merged_with(other@),
    {
        let ConstructorCallees { mut derived, mut extra } = self;
        let ghost first = views(derived@);
        let ghost second = views(other.derived@);
        for callee in it: other.derived
            invariant
                it.seq() == other.derived@,
                second == views(other.derived@),
                views(derived@) == absorb(first, second.take(it.index() as int)),
        {
            proof {
                let i = it.index() as int;
                assert(second.take(i + 1).drop_last() =~= second.take(i));
                assert(second.take(i + 1).last() == callee@);
                lemma_views_push(derived@, callee);
            }
            if !holds_callee(&derived, &callee) {
                derived.push(callee);
            }
        }
        assert(second.take(second.len() as int) =~= second);
        let extra = absorb_names(extra, other.extra);
        ConstructorCallees { derived, extra }
    }
}

fn holds_callee(callees: &Vec<DerivedCallee>, callee: &DerivedCallee) -> (r: bool)
    ensures
        r == views(callees@).contains(callee@),
{
    for i in 0..callees.len()
        invariant
            forall|j: int| 0 <= j < i ==> (#[trigger] views(callees@)[j]) != callee@,
    {
        if callees[i].same(callee) {
            assert(views(callees@)[i as int] == callee@);
            return true;
        }
    }
    false
}

/// Whether `name` is among `names`.
pub(crate) fn holds_name(names: &Vec<ModuleName>, name: &ModuleName) -> (r: bool)
    ensures
        r == views(names@).contains(name@),
{
    for i in 0..names.len()
        invariant
            forall|j: int| 0 <= j < i ==> (#[trigger] views(names@)[j]) != name@,
    {
        if names[i].same(name) {
            assert(views(names@)[i as int] == name@);
            return true;
        }
    }
    false
}

/// `first` with the names of `second` that are new.
pub(crate) fn absorb_names(first: Vec<ModuleName>, second: Vec<ModuleName>) -> (r: Vec<ModuleName>)
    ensures
        views(r@) == absorb(views(first@), views(second@)),
{
    let ghost a = views(first@);
    let ghost b = views(second@);
    let mut r = first;
    for name in it: second
        invariant
            it.seq() == second@,
            b == views(second@),
            views(r@) == absorb(a, b.take(it.index() as int)),
    {
        proof {
            let i = it.index() as int;
            assert(b.take(i + 1).drop_last() =~= b.take(i));
            assert(b.take(i + 1).last() == name@);
            lemma_views_push(r@, name);
        }
        if !holds_name(&r, &name) {
            r.push(name);
        }
    }
    assert(b.take(b.len() as int) =~= b);
    r
}

/// A list of names.
#[derive(Debug, PartialEq, Eq)]
pub struct NameList {
    pub names: Vec<ModuleName>,
}

impl View for NameList {
    type V = Seq<Seq<char>>;

    open spec fn view(&self) -> Seq<Seq<char>> {
        views(self.names@)
    }
}

/// The views of pairs of a class and its bases.
pub open spec fn base_views(entries: Seq<(ModuleName, Vec<ModuleName>)>) -> Seq<
    (Seq<char>, Seq<Seq<char>>),
> {
    Seq::new(entries.len(), |i: int| (entries[i].0@, views(entries[i].1@)))
}

/// The views of pairs of a class and its constructor callees.
pub open spec fn callee_views(entries: Seq<(ModuleName, ConstructorCallees)>) -> Seq<
    (Seq<char>, CalleesView),
> {
    Seq::new(entries.len(), |i: int| (entries[i].0@, entries[i].1@))
}

/// One library.
pub struct LibraryCache {
    pub modules: Vec<CachedModule>,
    pub exports: CachedExports,
    /// Classes with the full names of their bases.
    pub class_bases: Vec<(ModuleName, Vec<ModuleName>)>,
    /// Classes with what runs when they are instantiated.
    pub constructor_callees: Vec<(ModuleName, ConstructorCallees)>,
}

/// What a [`LibraryCache`] records.
pub struct CacheView {
    pub modules: Seq<ModuleView>,
    pub re_exports: Seq<ReExportView>,
    pub class_bases: Seq<(Seq<char>, Seq<Seq<char>>)>,
    pub constructor_callees: Seq<(Seq<char>, CalleesView)>,
}

impl View for LibraryCache {
    type V = CacheView;

    open spec fn view(&self) -> CacheView {
        CacheView {
            modules: views(self.modules@),
            re_exports: views(self.exports.re_exports@),
            class_bases: base_views(self.class_bases@),
            constructor_callees: callee_views(self.constructor_callees@),
        }
    }
}

impl Default for LibraryCache {
    fn default() -> (r: Self)
        ensures
            r@.modules.len() == 0,
            r@.re_exports.len() == 0,
            r@.class_bases.len() == 0,
            r@.constructor_callees.len() == 0,
    {
        LibraryCache {
            modules: Vec::new(),
            exports: CachedExports { re_exports: Vec::new() },
            class_bases: Vec::new(),
            constructor_callees: Vec::new(),
        }
    }
}

/// The names of a cache's modules.
pub open spec fn module_names(modules: Seq<ModuleView>) -> Set<Seq<char>> {
    modules.map_values(|module: ModuleView| module.name).to_set()
}

impl LibraryCache {
    /// The names of the modules.
    pub fn module_name_set(&self) -> (r: NameSet)
        ensures
            r@ == module_names(self@.modules),
    {
        let ghost names = self@.modules.map_values(|module: ModuleView| module.name);
        let mut r = NameSet::new();
        assert(names.take(0).to_set() =~= Set::<Seq<char>>::empty());
        for i in 0..self.modules.len()
            invariant
                names == self@.modules.map_values(|module: ModuleView| module.name),
                r@ == names.take(i as int).to_set(),
        {
            r.insert(self.modules[i].name.to_text());
            proof {
                assert(names.take(i + 1) =~= names.take(i as int).push(names[i as int]));
                names.take(i as int).lemma_push_to_set_commute(names[i as int]);
            }
        }
        assert(names.take(names.len() as int) =~= names);
        r
    }
}

} // verus!
