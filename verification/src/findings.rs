//! What the analysis of a module reports, and its record in an artifact.
use vstd::prelude::*;

use crate::artifact::CachedModuleSafety;
use crate::artifact::CachedSafety;
use crate::artifact::FindingsView;
use crate::artifact::SafetyView;
use crate::errors::CachedError;
use crate::errors::SafetyError;
use crate::names::lemma_views_push;
use crate::names::views;
use crate::names::ModuleName;
use crate::order::is_sorted;
use crate::order::is_stable_sort_of;
use crate::order::lemma_stable_sort_is_unique;
use crate::order::sort;

verus! {

/// What the analysis of a module found.
#[derive(Debug, PartialEq, Eq)]
pub struct ModuleSafety {
    pub errors: Vec<SafetyError>,
    pub force_imports_eager_overrides: Vec<SafetyError>,
    pub implicit_imports: Vec<ModuleName>,
}

impl View for ModuleSafety {
    type V = FindingsView;

    open spec fn view(&self) -> FindingsView {
        FindingsView {
            errors: views(self.errors@),
            overrides: views(self.force_imports_eager_overrides@),
            implicit_imports: views(self.implicit_imports@),
        }
    }
}

impl ModuleSafety {
    /// Nothing found.
    pub fn new() -> (r: Self)
        ensures
            r@.errors.len() == 0,
            r@.overrides.len() == 0,
            r@.implicit_imports.len() == 0,
    {
        ModuleSafety {
            errors: Vec::new(),
            force_imports_eager_overrides: Vec::new(),
            implicit_imports: Vec::new(),
        }
    }

    /// Adds an error.
    pub fn add_error(&mut self, error: SafetyError)
        ensures
            final(self)@ == (FindingsView {
                errors: old(self)@.errors.push(error@),
                ..old(self)@
            }),
    {
        proof {
            lemma_views_push(self.errors@, error);
        }
        self.errors.push(error);
    }

    /// Adds a reason to load the module's imports eagerly.
    pub fn add_force_import_override(&mut self, error: SafetyError)
        ensures
            final(self)@ == (FindingsView {
                overrides: old(self)@.overrides.push(error@),
                ..old(self)@
            }),
    {
        proof {
            lemma_views_push(self.force_imports_eager_overrides@, error);
        }
        self.force_imports_eager_overrides.push(error);
    }
}

/// The outcome of analysing a module.
#[derive(Debug, PartialEq, Eq)]
pub enum SafetyResult {
    Analyzed(ModuleSafety),
    AnalysisError { message: String },
}

impl View for SafetyResult {
    type V = SafetyView;

    open spec fn view(&self) -> SafetyView {
        match self {
            SafetyResult::Analyzed(findings) => SafetyView::Analyzed(findings@),
            SafetyResult::AnalysisError { message } => SafetyView::AnalysisError {
                message: message@,
            },
        }
    }
}

/// Whether `record` is the record of `result`: all it says, with the implicit imports sorted.
pub open spec fn is_record_of(record: SafetyView, result: SafetyView) -> bool {
    match result {
        SafetyView::Analyzed(findings) => {
            &&& record matches SafetyView::Analyzed(recorded)
            &&& recorded.errors == findings.errors
            &&& recorded.overrides == findings.overrides
            &&& is_stable_sort_of::<ModuleName>(
                recorded.implicit_imports,
                findings.implicit_imports,
            )
        },
        SafetyView::AnalysisError { .. } => record == result,
    }
}

/// Whether the implicit imports are in order.
pub open spec fn has_sorted_imports(safety: SafetyView) -> bool {
    safety matches SafetyView::Analyzed(findings) ==> is_sorted::<ModuleName>(
        findings.implicit_imports,
    )
}

/// A record with its implicit imports in order comes back unchanged from the outcome that it
/// stands for.
pub proof fn lemma_record_round_trip(safety: SafetyView, record: SafetyView)
    requires
        has_sorted_imports(safety),
        is_record_of(record, safety),
    ensures
        record == safety,
{
    if let SafetyView::Analyzed(findings) = safety {
        let recorded = record->Analyzed_0;
        lemma_stable_sort_is_unique::<ModuleName>(
            recorded.implicit_imports,
            findings.implicit_imports,
            findings.implicit_imports,
        );
    }
}

/// Every record that is made of an outcome has its implicit imports in order.
pub proof fn lemma_records_are_sorted(result: SafetyView, record: SafetyView)
    requires
        is_record_of(record, result),
    ensures
        has_sorted_imports(record),
{
}

fn clone_names(names: &Vec<ModuleName>) -> (r: Vec<ModuleName>)
    ensures
        views(r@) == views(names@),
{
    let mut r: Vec<ModuleName> = Vec::new();
    for i in 0..names.len()
        invariant
            views(r@) == views(names@).take(i as int),
    {
        let name = names[i].clone();
        proof {
            lemma_views_push(r@, name);
            assert(views(names@).take(i + 1) =~= views(names@).take(i as int).push(name@));
        }
        r.push(name);
    }
    assert(views(names@).take(names@.len() as int) =~= views(names@));
    r
}

fn record_errors(errors: &Vec<SafetyError>) -> (r: Vec<CachedError>)
    ensures
        views(r@) == views(errors@),
{
    let mut r: Vec<CachedError> = Vec::new();
    for i in 0..errors.len()
        invariant
            views(r@) == views(errors@).take(i as int),
    {
        let error = CachedError::from_safety_error(&errors[i]);
        proof {
            lemma_views_push(r@, error);
            assert(views(errors@).take(i + 1) =~= views(errors@).take(i as int).push(error@));
        }
        r.push(error);
    }
    assert(views(errors@).take(errors@.len() as int) =~= views(errors@));
    r
}

impl CachedSafety {
    /// The outcome that the record stands for.
    pub fn to_safety_result(&self) -> (r: SafetyResult)
        ensures
            r@ == self@,
    {
        match self {
            CachedSafety::Analyzed(safety) => {
                let mut findings = ModuleSafety::new();
                let ghost errors = views(safety.errors@);
                let ghost overrides = views(safety.force_imports_eager_overrides@);
                assert(findings@.errors =~= errors.take(0));
                for i in 0..safety.errors.len()
                    invariant
                        errors == views(safety.errors@),
                        findings@.errors == errors.take(i as int),
                        findings@.overrides.len() == 0,
                {
                    let error = safety.errors[i].to_safety_error();
                    assert(errors.take(i + 1) =~= errors.take(i as int).push(error@));
                    findings.add_error(error);
                }
                assert(errors.take(errors.len() as int) =~= errors);
                assert(findings@.overrides =~= overrides.take(0));
                for i in 0..safety.force_imports_eager_overrides.len()
                    invariant
                        overrides == views(safety.force_imports_eager_overrides@),
                        findings@.errors == errors,
                        findings@.overrides == overrides.take(i as int),
                {
                    let error = safety.force_imports_eager_overrides[i].to_safety_error();
                    assert(overrides.take(i + 1) =~= overrides.take(i as int).push(error@));
                    findings.add_force_import_override(error);
                }
                assert(overrides.take(overrides.len() as int) =~= overrides);
                findings.implicit_imports = clone_names(&safety.implicit_imports);
                SafetyResult::Analyzed(findings)
            },
            CachedSafety::AnalysisError { message } => SafetyResult::AnalysisError {
                message: message.clone(),
            },
        }
    }

    /// The record of an outcome.
    pub fn from_safety_result(result: &SafetyResult) -> (r: Self)
        ensures
            is_record_of(r@, result@),
    {
        match result {
            SafetyResult::Analyzed(safety) => CachedSafety::Analyzed(
                CachedModuleSafety {
                    errors: record_errors(&safety.errors),
                    force_imports_eager_overrides: record_errors(
                        &safety.force_imports_eager_overrides,
                    ),
                    implicit_imports: sort(clone_names(&safety.implicit_imports)),
                },
            ),
            SafetyResult::AnalysisError { message } => CachedSafety::AnalysisError {
                message: message.clone(),
            },
        }
    }
}

} // verus!
