//! Laws of records: what tells two of them apart, and what each part of a record stands for.
use vstd::prelude::*;

use crate::artifact::CachedModule;
use crate::artifact::CachedModuleSafety;
use crate::artifact::CachedReExport;
use crate::artifact::CachedSafety;
use crate::artifact::ConstructorCallees;
use crate::artifact::DerivedCallee;
use crate::artifact::LibraryCache;
use crate::artifact::SafetyView;
use crate::bundled_stubs::StubModule;
use crate::edits::FileEdit;
use crate::errors::CachedError;
use crate::errors::SafetyError;
use crate::fixer::FixRules;
use crate::fixer::ImportOccurrence;
use crate::fixer::ModuleSource;
use crate::names::views;
use crate::names::ModuleName;
use crate::resolution::candidate_views;
use crate::resolution::emitted_views;
use crate::resolution::ResolutionOutcome;
use crate::safety::FunctionSafetyInfo;
use crate::safety::ImportedArgs;
use crate::safety::MutationCandidate;
use crate::safety::MutationCandidateSite;
use crate::safety::SiteView;

verus! {

/// Two errors are the same exactly if they are of one kind, speak of the same, and are both, or
/// neither, about a decorator with arguments.
pub proof fn lemma_same_errors(a: CachedError, b: CachedError, c: SafetyError)
    ensures
        a@ == b@ <==> a.kind == b.kind && a.metadata@ == b.metadata@ && a.parameterized_decorator
            == b.parameterized_decorator,
        a@ == c@ <==> a.kind == c.kind && a.metadata@ == c.metadata@ && a.parameterized_decorator
            == c.parameterized_decorator,
        a@.kind == a.kind,
        a@.metadata == a.metadata@,
{
}

/// Two mutation candidates are the same exactly if they have one callee, one site, and the same
/// imported arguments from the same offset on.
pub proof fn lemma_same_candidates(a: MutationCandidate, b: MutationCandidate)
    ensures
        a@ == b@ <==> {
            &&& a.callee@ == b.callee@
            &&& a.site@ == b.site@
            &&& a.arg_offset == b.arg_offset
            &&& a.imported_args.positions@ == b.imported_args.positions@
            &&& views(a.imported_args.keywords@) == views(b.imported_args.keywords@)
        },
{
}

/// A site in a function is never one in a module's own scope; each is told by the texts that it
/// holds.
pub proof fn lemma_sites_differ(a: MutationCandidateSite)
    ensures
        a matches MutationCandidateSite::ModuleScope { call } ==> (a@ matches SiteView::ModuleScope {
            call: text,
        } && text == call@),
        a matches MutationCandidateSite::FunctionScope { function, call } ==> (
        a@ matches SiteView::FunctionScope { function: name, call: text } && name == function@
            && text == call@),
{
}

/// Two recorded methods are the same exactly if they have the same owner, or both none, and the
/// same name.
pub proof fn lemma_same_methods(a: DerivedCallee, b: DerivedCallee)
    ensures
        a@ == b@ <==> a.method@ == b.method@ && (match (a.owner, b.owner) {
            (Some(p), Some(q)) => p@ == q@,
            (None, None) => true,
            _ => false,
        }),
{
}

/// Two re-exports are the same exactly if they export the same name and take it from the same
/// place.
pub proof fn lemma_same_re_exports(a: CachedReExport, b: CachedReExport)
    ensures
        a@ == b@ <==> a.exported_module@ == b.exported_module@ && a.exported_attr@
            == b.exported_attr@ && a.imported_module@ == b.imported_module@ && a.imported_attr@
            == b.imported_attr@,
        a@.exported_module == a.exported_module@,
        a@.exported_attr == a.exported_attr@,
        a@.imported_module == a.imported_module@,
{
}

/// Each part of a module's record stands for what it is named after.
pub proof fn lemma_parts_of_module(a: CachedModule, findings: CachedModuleSafety)
    ensures
        a@.name == a.name@,
        a@.imports == a.imports@,
        a@.missing_imports == a.missing_imports@,
        a@.ambiguous_imports == a.ambiguous_imports@,
        a@.side_effect_imports == a.side_effect_imports@,
        a@.function_safety == a.function_safety@,
        a@.mutation_candidates == views(a.mutation_candidates@),
        a@.safety is Analyzed <==> a.safety is Analyzed,
        a.safety matches CachedSafety::AnalysisError { message } ==> (
        a@.safety matches SafetyView::AnalysisError { message: text } && text == message@),
        findings@.errors == views(findings.errors@),
        findings@.overrides == views(findings.force_imports_eager_overrides@),
        findings@.implicit_imports == views(findings.implicit_imports@),
        a.safety == CachedSafety::Analyzed(findings) ==> a@.safety == SafetyView::Analyzed(
            findings@,
        ),
{
}

/// Each part of a cache stands for what it is named after, entry by entry.
pub proof fn lemma_parts_of_cache(a: LibraryCache, i: int)
    ensures
        a@.modules.len() == a.modules@.len(),
        0 <= i < a.modules@.len() ==> a@.modules[i] == a.modules@[i]@,
        a@.re_exports.len() == a.exports.re_exports@.len(),
        0 <= i < a.exports.re_exports@.len() ==> a@.re_exports[i] == a.exports.re_exports@[i]@,
        a@.class_bases.len() == a.class_bases@.len(),
        0 <= i < a.class_bases@.len() ==> a@.class_bases[i].0 == a.class_bases@[i].0@
            && a@.class_bases[i].1 == views(a.class_bases@[i].1@),
        a@.constructor_callees.len() == a.constructor_callees@.len(),
        0 <= i < a.constructor_callees@.len() ==> a@.constructor_callees[i].0
            == a.constructor_callees@[i].0@ && a@.constructor_callees[i].1
            == a.constructor_callees@[i].1@,
{
}

/// A list of records is viewed entry by entry.
pub proof fn lemma_entries<T: View>(items: Seq<T>, i: int)
    ensures
        views(items).len() == items.len(),
        0 <= i < items.len() ==> views(items)[i] == items[i]@,
{
}

/// What goes into resolution and what comes out is viewed entry by entry.
pub proof fn lemma_resolution_entries(
    candidates: Seq<(ModuleName, Vec<MutationCandidate>)>,
    emitted: Seq<(ModuleName, String)>,
    outcome: ResolutionOutcome,
    i: int,
)
    ensures
        candidate_views(candidates).len() == candidates.len(),
        0 <= i < candidates.len() ==> candidate_views(candidates)[i].0 == candidates[i].0@
            && candidate_views(candidates)[i].1 == views(candidates[i].1@),
        emitted_views(emitted).len() == emitted.len(),
        0 <= i < emitted.len() ==> emitted_views(emitted)[i].0 == emitted[i].0@ && emitted_views(
            emitted,
        )[i].1 == emitted[i].1@,
        outcome@.promoted == outcome.promoted@,
        outcome@.globally_safe == outcome.globally_safe@,
        outcome@.resolved_to_safe == outcome.resolved_to_safe,
{
}

/// What the fixer works on: each part stands for what it is named after.
pub proof fn lemma_parts_of_fixes(
    occurrence: ImportOccurrence,
    source: ModuleSource,
    rules: FixRules,
    edit: FileEdit,
)
    ensures
        occurrence@.target == occurrence.target@,
        occurrence@.offset == occurrence.offset,
        occurrence@.is_lazy == occurrence.is_lazy,
        occurrence@.is_import_from == occurrence.is_import_from,
        source@.name == source.name@,
        source@.occurrences == views(source.occurrences@),
        source@.file == source.file,
        source@.content is Some <==> source.content is Some,
        source.content matches Some(text) ==> source@.content == Some(text@),
        rules@.load_imports_eagerly == rules.load_imports_eagerly@,
        rules@.lazy_eligible == rules.lazy_eligible@,
        rules@.target_version == rules.target_version,
        edit@.offset == edit.offset,
        edit@.text == edit.text@,
{
}

/// A verdict is viewed with its concerns, a stub with its edges, and recorded callees in their
/// order.
pub proof fn lemma_parts_of_facts(
    info: FunctionSafetyInfo,
    stub: StubModule,
    callees: ConstructorCallees,
    args: ImportedArgs,
)
    ensures
        info@.verdict == info.verdict,
        info@.concerns == info.concerns@,
        stub@.name == stub.name@,
        stub@.imports == stub.edges.imports@,
        stub@.missing_imports == stub.edges.missing_imports@,
        stub@.ambiguous_imports == stub.edges.ambiguous_imports@,
        callees@.derived == views(callees.derived@),
        callees@.extra == views(callees.extra@),
        args@.0 == args.positions@,
        args@.1 == views(args.keywords@),
{
}

} // verus!
