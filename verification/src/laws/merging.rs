//! Laws of merging caches.
use vstd::prelude::*;

use crate::artifact::CacheView;
use crate::artifact::CachedModule;
use crate::artifact::CalleesView;
use crate::artifact::ModuleView;
use crate::artifact::ReExportView;
use crate::artifact::SafetyView;
use crate::errors::CachedError;
use crate::errors::ErrorView;
use crate::laws::ordering::lemma_ordered_errors;
use crate::laws::ordering::lemma_ordered_names;
use crate::merge::coalesce;
use crate::merge::first_exports;
use crate::merge::folded_bases;
use crate::merge::folded_callees;
use crate::merge::is_coalesced;
use crate::merge::is_exported;
use crate::merge::joined_class_facts;
use crate::merge::joined_modules;
use crate::merge::joined_re_exports;
use crate::merge::lemma_coalesced_names;
use crate::merge::lemma_merged_errors;
use crate::merge::marks_verified;
use crate::merge::merge_all;
use crate::merge::merged_errors;
use crate::merge::merged_module;
use crate::merge::unmarked;
use crate::names::absorb;
use crate::names::lemma_absorb;
use crate::names::ModuleName;
use crate::order::in_order;
use crate::order::lemma_with_key_members;
use crate::order::with_key;
use crate::order::SortKey;
use crate::safety::CandidateView;
use crate::safety::FunctionSafety;
use crate::text::text_before;

verus! {

/// Merged errors come each once, by their kind, then by what they speak of.
pub proof fn lemma_merged_errors_in_order(a: Seq<ErrorView>, b: Seq<ErrorView>, i: int, j: int)
    requires
        0 <= i < j < merged_errors(a, b).len(),
    ensures
        ({
            let r = merged_errors(a, b);
            &&& r[i] != r[j]
            &&& a.contains(r[i]) || b.contains(r[i])
            &&& r[i].kind.rank() <= r[j].kind.rank()
            &&& r[i].kind == r[j].kind && r[i].metadata != r[j].metadata ==> text_before(
                r[i].metadata,
                r[j].metadata,
            )
        }),
{
    let r = merged_errors(a, b);
    lemma_merged_errors(a, b);
    assert(r.contains(r[i]));
    assert((a + b).to_set() =~= a.to_set().union(b.to_set())) by {
        assert forall|error: ErrorView| #[trigger] (a + b).contains(error) <==> a.contains(error)
            || b.contains(error) by {
            lemma_add_holds(a, b, error);
        }
    }
    lemma_ordered_errors(a + b, i, j);
}

/// Records of one name that stand together become one.
pub proof fn lemma_one_run(records: Seq<ModuleView>)
    requires
        records.len() > 0,
        forall|i: int|
            0 <= i < records.len() ==> (#[trigger] records[i]).name == records[0].name,
    ensures
        coalesce(records) == seq![merge_all(records)],
    decreases records.len(),
{
    let shorter = records.drop_last();
    if records.len() == 1 {
        assert(coalesce(shorter) =~= Seq::<ModuleView>::empty());
        assert(coalesce(records) =~= seq![records[0]]);
    } else {
        assert forall|i: int| 0 <= i < shorter.len() implies (#[trigger] shorter[i]).name
            == shorter[0].name by {
            assert(shorter[i] == records[i]);
        }
        lemma_one_run(shorter);
        lemma_merged_edges(shorter, records[0].name);
        assert(shorter[0] == records[0]);
        assert(records[records.len() - 1].name == records[0].name);
        assert(coalesce(records) =~= seq![merge_all(records)]);
    }
}

/// Where two lists of records do not meet in one name, they become what each becomes by itself.
pub proof fn lemma_runs_apart(a: Seq<ModuleView>, b: Seq<ModuleView>)
    requires
        a.len() > 0 && b.len() > 0 ==> a.last().name != b[0].name,
    ensures
        coalesce(a + b) == coalesce(a) + coalesce(b),
    decreases b.len(),
{
    lemma_last_name(a);
    if b.len() == 0 {
        assert(a + b =~= a);
        assert(coalesce(a) + coalesce(b) =~= coalesce(a));
    } else {
        let shorter = b.drop_last();
        let next = b.last();
        if shorter.len() > 0 {
            assert(shorter[0] == b[0]);
        }
        lemma_runs_apart(a, shorter);
        lemma_last_name(shorter);
        assert((a + b).drop_last() =~= a + shorter);
        assert((a + b).last() == next);
        let left = coalesce(a);
        let right = coalesce(shorter);
        let r = left + right;
        if shorter.len() == 0 {
            assert(right =~= Seq::<ModuleView>::empty());
            assert(r =~= left);
            assert(next == b[0]);
            assert(coalesce(b) =~= seq![next]);
            assert(coalesce(a + b) =~= left + seq![next]);
        } else {
            assert(r.last() == right.last());
            if right.last().name == next.name {
                assert(r.drop_last() =~= left + right.drop_last());
            }
            assert(coalesce(a + b) =~= left + coalesce(b));
        }
    }
}

proof fn lemma_last_name(records: Seq<ModuleView>)
    ensures
        records.len() > 0 ==> coalesce(records).len() > 0 && coalesce(records).last().name
            == records.last().name,
    decreases records.len(),
{
    if records.len() > 0 {
        lemma_last_name(records.drop_last());
    }
}

/// Of the errors, those are kept that do not hang on an import or that `f` does not call
/// verified, in their order.
pub proof fn lemma_unverified_errors<F: Fn(&CachedError) -> bool>(
    f: F,
    verified: spec_fn(CachedError) -> bool,
    errors: Seq<CachedError>,
    marks: Seq<bool>,
)
    requires
        forall|error: &CachedError, answer: bool| #[trigger]
            call_ensures(f, (error,), answer) ==> answer == verified(*error),
        marks_verified(f, errors, marks),
    ensures
        unmarked(errors, marks) == errors.filter(
            |error: CachedError| !(error.kind.hangs_on_import() && verified(error)),
        ),
    decreases errors.len(),
{
    reveal(Seq::filter);
    let pred = |error: CachedError| !(error.kind.hangs_on_import() && verified(error));
    if errors.len() > 0 {
        let shorter = errors.drop_last();
        let fewer = marks.drop_last();
        let last = errors.last();
        let n = errors.len() - 1;
        assert(marks_verified(f, shorter, fewer)) by {
            assert forall|i: int| 0 <= i < shorter.len() implies if (#[trigger] fewer[i]) {
                shorter[i].kind.hangs_on_import() && call_ensures(f, (&shorter[i],), true)
            } else {
                !shorter[i].kind.hangs_on_import() || call_ensures(f, (&shorter[i],), false)
            } by {
                assert(marks[i] == fewer[i] && errors[i] == shorter[i]);
            }
        }
        lemma_unverified_errors(f, verified, shorter, fewer);
        assert(marks[n] == marks.last() && errors[n] == last);
        assert(marks.last() == !pred(last));
    }
}

/// Whether some record is as `p` says.
pub open spec fn some_record(records: Seq<ModuleView>, p: spec_fn(ModuleView) -> bool) -> bool {
    exists|i: int| 0 <= i < records.len() && p(#[trigger] records[i])
}

/// Whether every record is as `p` says.
pub open spec fn every_record(records: Seq<ModuleView>, p: spec_fn(ModuleView) -> bool) -> bool {
    forall|i: int| 0 <= i < records.len() ==> p(#[trigger] records[i])
}

proof fn lemma_some_record(records: Seq<ModuleView>, p: spec_fn(ModuleView) -> bool)
    requires
        records.len() > 0,
    ensures
        some_record(records, p) <==> some_record(records.drop_last(), p) || p(records.last()),
        every_record(records, p) <==> every_record(records.drop_last(), p) && p(records.last()),
{
    let shorter = records.drop_last();
    assert(records[records.len() - 1] == records.last());
    if some_record(shorter, p) {
        let i = choose|i: int| 0 <= i < shorter.len() && p(#[trigger] shorter[i]);
        assert(records[i] == shorter[i]);
    }
    if some_record(records, p) {
        let i = choose|i: int| 0 <= i < records.len() && p(#[trigger] records[i]);
        if i < shorter.len() {
            assert(shorter[i] == records[i]);
        }
    }
    if every_record(records, p) {
        assert forall|i: int| 0 <= i < shorter.len() implies p(#[trigger] shorter[i]) by {
            assert(shorter[i] == records[i]);
        }
    }
    if every_record(shorter, p) && p(records.last()) {
        assert forall|i: int| 0 <= i < records.len() implies p(#[trigger] records[i]) by {
            if i < shorter.len() {
                assert(shorter[i] == records[i]);
            }
        }
    }
}

proof fn lemma_single_record(records: Seq<ModuleView>, p: spec_fn(ModuleView) -> bool)
    requires
        records.len() == 1,
    ensures
        some_record(records, p) <==> p(records[0]),
        every_record(records, p) <==> p(records[0]),
{
    if p(records[0]) {
        assert(p(records[0]));
    }
}

/// Of two records of a module, the merged one imports what either imports, and misses what both
/// miss.
pub proof fn lemma_two_records_edges(a: ModuleView, b: ModuleView, name: Seq<char>)
    ensures
        ({
            let m = merged_module(a, b);
            &&& m.name == a.name
            &&& m.imports.contains(name) <==> a.imports.contains(name) || b.imports.contains(name)
            &&& m.ambiguous_imports.contains(name) <==> a.ambiguous_imports.contains(name)
                || b.ambiguous_imports.contains(name)
            &&& m.side_effect_imports.contains(name) <==> a.side_effect_imports.contains(name)
                || b.side_effect_imports.contains(name)
            &&& m.missing_imports.contains(name) <==> a.missing_imports.contains(name)
                && b.missing_imports.contains(name)
        }),
{
}

/// The merged record of a module imports a name exactly if some record imports it, and misses it
/// exactly if every record misses it.
pub proof fn lemma_merged_edges(records: Seq<ModuleView>, name: Seq<char>)
    requires
        records.len() > 0,
    ensures
        ({
            let m = merge_all(records);
            &&& m.name == records[0].name
            &&& m.imports.contains(name) <==> some_record(
                records,
                |r: ModuleView| r.imports.contains(name),
            )
            &&& m.ambiguous_imports.contains(name) <==> some_record(
                records,
                |r: ModuleView| r.ambiguous_imports.contains(name),
            )
            &&& m.side_effect_imports.contains(name) <==> some_record(
                records,
                |r: ModuleView| r.side_effect_imports.contains(name),
            )
            &&& m.missing_imports.contains(name) <==> every_record(
                records,
                |r: ModuleView| r.missing_imports.contains(name),
            )
        }),
    decreases records.len(),
{
    let imports = |r: ModuleView| r.imports.contains(name);
    let ambiguous = |r: ModuleView| r.ambiguous_imports.contains(name);
    let side = |r: ModuleView| r.side_effect_imports.contains(name);
    let missing = |r: ModuleView| r.missing_imports.contains(name);
    if records.len() == 1 {
        lemma_single_record(records, imports);
        lemma_single_record(records, ambiguous);
        lemma_single_record(records, side);
        lemma_single_record(records, missing);
    } else {
        let shorter = records.drop_last();
        lemma_merged_edges(shorter, name);
        lemma_two_records_edges(merge_all(shorter), records.last(), name);
        lemma_some_record(records, imports);
        lemma_some_record(records, ambiguous);
        lemma_some_record(records, side);
        lemma_some_record(records, missing);
        assert(shorter[0] == records[0]);
    }
}

/// Whether the record has a verdict on the function that is as bad as `Unsafe`.
pub open spec fn has_unsafe(r: ModuleView, attr: Seq<char>) -> bool {
    r.function_safety.contains_key(attr) && r.function_safety[attr].verdict
        == FunctionSafety::Unsafe
}

/// Whether the record has a verdict on the function other than `Safe`.
pub open spec fn has_not_safe(r: ModuleView, attr: Seq<char>) -> bool {
    r.function_safety.contains_key(attr) && r.function_safety[attr].verdict
        != FunctionSafety::Safe
}

/// Whether the record's verdict on the function rests on the concern.
pub open spec fn has_concern(r: ModuleView, attr: Seq<char>, concern: Seq<char>) -> bool {
    r.function_safety.contains_key(attr) && r.function_safety[attr].concerns.contains(concern)
}

/// Of two records of a module, the merged one has a verdict where either has, the worse of the
/// two where both have, with the concerns of both.
pub proof fn lemma_two_records_verdicts(
    a: ModuleView,
    b: ModuleView,
    attr: Seq<char>,
    concern: Seq<char>,
)
    ensures
        ({
            let m = merged_module(a, b);
            &&& m.function_safety.contains_key(attr) <==> a.function_safety.contains_key(attr)
                || b.function_safety.contains_key(attr)
            &&& has_unsafe(m, attr) <==> has_unsafe(a, attr) || has_unsafe(b, attr)
            &&& has_not_safe(m, attr) <==> has_not_safe(a, attr) || has_not_safe(b, attr)
            &&& has_concern(m, attr, concern) <==> has_concern(a, attr, concern) || has_concern(
                b,
                attr,
                concern,
            )
        }),
{
}

/// The merged record has the worst verdict that any record has on a function, with the concerns
/// of all.
pub proof fn lemma_merged_verdicts(records: Seq<ModuleView>, attr: Seq<char>, concern: Seq<char>)
    requires
        records.len() > 0,
    ensures
        ({
            let m = merge_all(records);
            &&& m.function_safety.contains_key(attr) <==> some_record(
                records,
                |r: ModuleView| r.function_safety.contains_key(attr),
            )
            &&& has_unsafe(m, attr) <==> some_record(records, |r: ModuleView| has_unsafe(r, attr))
            &&& has_not_safe(m, attr) <==> some_record(
                records,
                |r: ModuleView| has_not_safe(r, attr),
            )
            &&& has_concern(m, attr, concern) <==> some_record(
                records,
                |r: ModuleView| has_concern(r, attr, concern),
            )
        }),
    decreases records.len(),
{
    let has = |r: ModuleView| r.function_safety.contains_key(attr);
    let bad = |r: ModuleView| has_unsafe(r, attr);
    let not_safe = |r: ModuleView| has_not_safe(r, attr);
    let concerned = |r: ModuleView| has_concern(r, attr, concern);
    if records.len() == 1 {
        lemma_single_record(records, has);
        lemma_single_record(records, bad);
        lemma_single_record(records, not_safe);
        lemma_single_record(records, concerned);
    } else {
        let shorter = records.drop_last();
        lemma_merged_verdicts(shorter, attr, concern);
        lemma_two_records_verdicts(merge_all(shorter), records.last(), attr, concern);
        lemma_some_record(records, has);
        lemma_some_record(records, bad);
        lemma_some_record(records, not_safe);
        lemma_some_record(records, concerned);
    }
}

/// Whether the analysis of the record failed.
pub open spec fn has_failed(r: ModuleView) -> bool {
    r.safety is AnalysisError
}

/// Whether the error is held against the record.
pub open spec fn has_error(r: ModuleView, error: ErrorView) -> bool {
    r.safety matches SafetyView::Analyzed(findings) && findings.errors.contains(error)
}

/// Whether the error makes the record's imports eager.
pub open spec fn has_override(r: ModuleView, error: ErrorView) -> bool {
    r.safety matches SafetyView::Analyzed(findings) && findings.overrides.contains(error)
}

/// Whether the record uses the submodule without importing it.
pub open spec fn has_implicit(r: ModuleView, name: Seq<char>) -> bool {
    r.safety matches SafetyView::Analyzed(findings) && findings.implicit_imports.contains(name)
}

/// Of two records of a module, a failed analysis stands, the first of two; else the merged one
/// holds all that either found.
pub proof fn lemma_two_records_findings(
    a: ModuleView,
    b: ModuleView,
    error: ErrorView,
    name: Seq<char>,
)
    ensures
        ({
            let m = merged_module(a, b);
            &&& has_failed(m) <==> has_failed(a) || has_failed(b)
            &&& has_failed(a) ==> m.safety == a.safety
            &&& !has_failed(a) && has_failed(b) ==> m.safety == b.safety
            &&& !has_failed(m) ==> {
                &&& has_error(m, error) <==> has_error(a, error) || has_error(b, error)
                &&& has_override(m, error) <==> has_override(a, error) || has_override(b, error)
                &&& has_implicit(m, name) <==> has_implicit(a, name) || has_implicit(b, name)
            }
        }),
{
    if let (SafetyView::Analyzed(x), SafetyView::Analyzed(y)) = (a.safety, b.safety) {
        lemma_merged_errors(x.errors, y.errors);
        lemma_merged_errors(x.overrides, y.overrides);
        let both = x.implicit_imports + y.implicit_imports;
        lemma_ordered_names(both);
        assert(both.to_set() =~= x.implicit_imports.to_set().union(y.implicit_imports.to_set()))
            by {
            assert forall|other: Seq<char>| #[trigger] both.contains(other) <==> (
            x.implicit_imports.contains(other) || y.implicit_imports.contains(other)) by {
                lemma_add_holds(x.implicit_imports, y.implicit_imports, other);
            }
        }
        lemma_add_holds(x.implicit_imports, y.implicit_imports, name);
        assert(in_order::<ModuleName>(both.to_set()).contains(name) <==> both.contains(name));
    }
}

proof fn lemma_add_holds<A>(a: Seq<A>, b: Seq<A>, value: A)
    ensures
        (a + b).contains(value) <==> a.contains(value) || b.contains(value),
{
    if a.contains(value) {
        assert((a + b)[a.index_of(value)] == value);
    }
    if b.contains(value) {
        assert((a + b)[a.len() + b.index_of(value)] == value);
    }
    if (a + b).contains(value) {
        let i = (a + b).index_of(value);
        if i < a.len() {
            assert(a[i] == value);
        } else {
            assert(b[i - a.len()] == value);
        }
    }
}

/// The merged record has failed exactly if some record has; else it holds all that any found.
pub proof fn lemma_merged_findings(records: Seq<ModuleView>, error: ErrorView, name: Seq<char>)
    requires
        records.len() > 0,
    ensures
        ({
            let m = merge_all(records);
            &&& has_failed(m) <==> some_record(records, |r: ModuleView| has_failed(r))
            &&& !has_failed(m) ==> {
                &&& has_error(m, error) <==> some_record(
                    records,
                    |r: ModuleView| has_error(r, error),
                )
                &&& has_override(m, error) <==> some_record(
                    records,
                    |r: ModuleView| has_override(r, error),
                )
                &&& has_implicit(m, name) <==> some_record(
                    records,
                    |r: ModuleView| has_implicit(r, name),
                )
            }
        }),
    decreases records.len(),
{
    let failed = |r: ModuleView| has_failed(r);
    let errs = |r: ModuleView| has_error(r, error);
    let overrides = |r: ModuleView| has_override(r, error);
    let implicit = |r: ModuleView| has_implicit(r, name);
    if records.len() == 1 {
        lemma_single_record(records, failed);
        lemma_single_record(records, errs);
        lemma_single_record(records, overrides);
        lemma_single_record(records, implicit);
    } else {
        let shorter = records.drop_last();
        lemma_merged_findings(shorter, error, name);
        lemma_two_records_findings(merge_all(shorter), records.last(), error, name);
        lemma_some_record(records, failed);
        lemma_some_record(records, errs);
        lemma_some_record(records, overrides);
        lemma_some_record(records, implicit);
    }
}

/// The merged record has the mutation candidates of all records, those of the first in front.
pub proof fn lemma_merged_candidates(records: Seq<ModuleView>, candidate: CandidateView)
    requires
        records.len() > 0,
    ensures
        merge_all(records).mutation_candidates.contains(candidate) <==> some_record(
            records,
            |r: ModuleView| r.mutation_candidates.contains(candidate),
        ),
        records[0].mutation_candidates.is_prefix_of(merge_all(records).mutation_candidates),
    decreases records.len(),
{
    let has = |r: ModuleView| r.mutation_candidates.contains(candidate);
    if records.len() == 1 {
        lemma_single_record(records, has);
    } else {
        let shorter = records.drop_last();
        lemma_merged_candidates(shorter, candidate);
        let before = merge_all(shorter).mutation_candidates;
        let after = merge_all(records).mutation_candidates;
        assert(after == absorb(before, records.last().mutation_candidates));
        lemma_absorb(before, records.last().mutation_candidates);
        lemma_some_record(records, has);
        assert(shorter[0] == records[0]);
        let first = records[0].mutation_candidates;
        assert(first =~= after.take(first.len() as int));
    }
}

/// Merging one record more puts its new candidates behind those that are there.
pub proof fn lemma_candidates_keep_their_order(records: Seq<ModuleView>, next: ModuleView)
    requires
        records.len() > 0,
    ensures
        merge_all(records).mutation_candidates.is_prefix_of(
            merge_all(records.push(next)).mutation_candidates,
        ),
        merge_all(records.push(next)).mutation_candidates == absorb(
            merge_all(records).mutation_candidates,
            next.mutation_candidates,
        ),
{
    assert(records.push(next).drop_last() =~= records);
    lemma_absorb(merge_all(records).mutation_candidates, next.mutation_candidates);
}

/// A merge of caches has one record for each name, in the order of the names. It says of a module
/// what the records of that name in any cache say together.
pub proof fn lemma_coalesced_record(
    modules: Seq<ModuleView>,
    all: Seq<ModuleView>,
    k: int,
    name: Seq<char>,
    attr: Seq<char>,
    error: ErrorView,
)
    requires
        is_coalesced(modules, all),
        0 <= k < modules.len(),
    ensures
        ({
            let m = modules[k];
            &&& forall|j: int|
                0 <= j < k ==> text_before((#[trigger] modules[j]).name, m.name)
            &&& some_record(all, |r: ModuleView| r.name == m.name)
            &&& m.imports.contains(name) <==> some_record(
                all,
                |r: ModuleView| r.name == m.name && r.imports.contains(name),
            )
            &&& m.ambiguous_imports.contains(name) <==> some_record(
                all,
                |r: ModuleView| r.name == m.name && r.ambiguous_imports.contains(name),
            )
            &&& m.side_effect_imports.contains(name) <==> some_record(
                all,
                |r: ModuleView| r.name == m.name && r.side_effect_imports.contains(name),
            )
            &&& m.missing_imports.contains(name) <==> every_record(
                all,
                |r: ModuleView| r.name == m.name ==> r.missing_imports.contains(name),
            )
            &&& m.function_safety.contains_key(attr) <==> some_record(
                all,
                |r: ModuleView| r.name == m.name && r.function_safety.contains_key(attr),
            )
            &&& has_unsafe(m, attr) <==> some_record(
                all,
                |r: ModuleView| r.name == m.name && has_unsafe(r, attr),
            )
            &&& has_not_safe(m, attr) <==> some_record(
                all,
                |r: ModuleView| r.name == m.name && has_not_safe(r, attr),
            )
            &&& has_failed(m) <==> some_record(
                all,
                |r: ModuleView| r.name == m.name && has_failed(r),
            )
            &&& !has_failed(m) ==> (has_error(m, error) <==> some_record(
                all,
                |r: ModuleView| r.name == m.name && has_error(r, error),
            ))
        }),
{
    let m = modules[k];
    let records = with_key::<CachedModule>(all, m.name);
    let kept = with_key::<CachedModule>(modules, m.name);
    lemma_with_key_members::<CachedModule>(modules, m.name);
    lemma_items_of_key::<CachedModule>(modules, m.name, m);
    assert(modules.contains(m) && CachedModule::key(m) == m.name);
    assert(kept.contains(m));
    assert(records.len() > 0);
    assert(kept == seq![merge_all(records)]);
    let i = kept.index_of(m);
    assert(kept[i] == m);
    assert(m == merge_all(records));
    assert forall|j: int| 0 <= j < k implies text_before((#[trigger] modules[j]).name, m.name) by {
        assert(CachedModule::before(CachedModule::key(modules[j]), CachedModule::key(m)));
    }
    lemma_merged_edges(records, name);
    lemma_merged_verdicts(records, attr, attr);
    lemma_merged_findings(records, error, name);
    lemma_some_of_name(all, m.name, |r: ModuleView| true);
    lemma_some_of_name(all, m.name, |r: ModuleView| r.imports.contains(name));
    lemma_some_of_name(all, m.name, |r: ModuleView| r.ambiguous_imports.contains(name));
    lemma_some_of_name(all, m.name, |r: ModuleView| r.side_effect_imports.contains(name));
    lemma_some_of_name(all, m.name, |r: ModuleView| r.missing_imports.contains(name));
    lemma_some_of_name(all, m.name, |r: ModuleView| r.function_safety.contains_key(attr));
    lemma_some_of_name(all, m.name, |r: ModuleView| has_unsafe(r, attr));
    lemma_some_of_name(all, m.name, |r: ModuleView| has_not_safe(r, attr));
    lemma_some_of_name(all, m.name, |r: ModuleView| has_failed(r));
    lemma_some_of_name(all, m.name, |r: ModuleView| has_error(r, error));
    assert(some_record(records, |r: ModuleView| true)) by {
        let p = |r: ModuleView| true;
        assert(p(records[0]));
    }
    assert(some_record(all, |r: ModuleView| r.name == m.name)) by {
        let p = |r: ModuleView| r.name == m.name && (|r: ModuleView| true)(r);
        let q = |r: ModuleView| r.name == m.name;
        let i = choose|i: int| 0 <= i < all.len() && p(#[trigger] all[i]);
        assert(q(all[i]));
    }
    lemma_same_some(
        all,
        |r: ModuleView| r.name == m.name && (|r: ModuleView| r.imports.contains(name))(r),
        |r: ModuleView| r.name == m.name && r.imports.contains(name),
    );
    lemma_same_some(
        all,
        |r: ModuleView| r.name == m.name && (|r: ModuleView| r.ambiguous_imports.contains(name))(r),
        |r: ModuleView| r.name == m.name && r.ambiguous_imports.contains(name),
    );
    lemma_same_some(
        all,
        |r: ModuleView| r.name == m.name && (|r: ModuleView| r.side_effect_imports.contains(name))(r),
        |r: ModuleView| r.name == m.name && r.side_effect_imports.contains(name),
    );
    lemma_same_some(
        all,
        |r: ModuleView| r.name == m.name ==> (|r: ModuleView| r.missing_imports.contains(name))(r),
        |r: ModuleView| r.name == m.name ==> r.missing_imports.contains(name),
    );
    lemma_same_some(
        all,
        |r: ModuleView|
            r.name == m.name && (|r: ModuleView| r.function_safety.contains_key(attr))(r),
        |r: ModuleView| r.name == m.name && r.function_safety.contains_key(attr),
    );
    lemma_same_some(
        all,
        |r: ModuleView| r.name == m.name && (|r: ModuleView| has_unsafe(r, attr))(r),
        |r: ModuleView| r.name == m.name && has_unsafe(r, attr),
    );
    lemma_same_some(
        all,
        |r: ModuleView| r.name == m.name && (|r: ModuleView| has_not_safe(r, attr))(r),
        |r: ModuleView| r.name == m.name && has_not_safe(r, attr),
    );
    lemma_same_some(
        all,
        |r: ModuleView| r.name == m.name && (|r: ModuleView| has_failed(r))(r),
        |r: ModuleView| r.name == m.name && has_failed(r),
    );
    lemma_same_some(
        all,
        |r: ModuleView| r.name == m.name && (|r: ModuleView| has_error(r, error))(r),
        |r: ModuleView| r.name == m.name && has_error(r, error),
    );
}

/// The items with a key are those items that have it.
pub proof fn lemma_items_of_key<T: SortKey>(items: Seq<T::V>, key: T::Key, item: T::V)
    ensures
        with_key::<T>(items, key).contains(item) <==> items.contains(item) && T::key(item) == key,
{
    let pred = |item: T::V| T::key(item) == key;
    let kept = items.filter(pred);
    assert(kept == with_key::<T>(items, key));
    if items.contains(item) && T::key(item) == key {
        let i = items.index_of(item);
        assert(items[i] == item);
        assert(pred(items[i]));
        items.lemma_filter_contains(pred, i);
    }
    if kept.contains(item) {
        let i = kept.index_of(item);
        assert(kept[i] == item);
        items.lemma_filter_pred(pred, i);
        assert(pred(kept[i]));
        items.lemma_filter_contains_rev(pred, item);
    }
}

proof fn lemma_same_some(
    records: Seq<ModuleView>,
    p: spec_fn(ModuleView) -> bool,
    q: spec_fn(ModuleView) -> bool,
)
    requires
        forall|r: ModuleView| #[trigger] p(r) == q(r),
    ensures
        some_record(records, p) == some_record(records, q),
        every_record(records, p) == every_record(records, q),
{
    if some_record(records, p) {
        let i = choose|i: int| 0 <= i < records.len() && p(#[trigger] records[i]);
        assert(q(records[i]));
    }
    if some_record(records, q) {
        let i = choose|i: int| 0 <= i < records.len() && q(#[trigger] records[i]);
        assert(p(records[i]));
    }
    if every_record(records, p) {
        assert forall|i: int| 0 <= i < records.len() implies q(#[trigger] records[i]) by {
            assert(p(records[i]));
        }
    }
    if every_record(records, q) {
        assert forall|i: int| 0 <= i < records.len() implies p(#[trigger] records[i]) by {
            assert(p(records[i]) == q(records[i]));
        }
    }
}

proof fn lemma_some_of_name(
    all: Seq<ModuleView>,
    name: Seq<char>,
    p: spec_fn(ModuleView) -> bool,
)
    ensures
        some_record(with_key::<CachedModule>(all, name), p) <==> some_record(
            all,
            |r: ModuleView| r.name == name && p(r),
        ),
        every_record(with_key::<CachedModule>(all, name), p) <==> every_record(
            all,
            |r: ModuleView| r.name == name ==> p(r),
        ),
{
    let records = with_key::<CachedModule>(all, name);
    lemma_with_key_members::<CachedModule>(all, name);
    let both = |r: ModuleView| r.name == name && p(r);
    let either = |r: ModuleView| r.name == name ==> p(r);
    if some_record(records, p) {
        let i = choose|i: int| 0 <= i < records.len() && p(#[trigger] records[i]);
        assert(records.contains(records[i]));
        lemma_items_of_key::<CachedModule>(all, name, records[i]);
        let j = all.index_of(records[i]);
        assert(all[j] == records[i]);
        assert(both(all[j]));
    }
    if some_record(all, both) {
        let j = choose|j: int| 0 <= j < all.len() && both(#[trigger] all[j]);
        assert(all.contains(all[j]) && CachedModule::key(all[j]) == name);
        lemma_items_of_key::<CachedModule>(all, name, all[j]);
        assert(records.contains(all[j]));
        let i = records.index_of(all[j]);
        assert(records[i] == all[j]);
        assert(p(records[i]));
    }
    if every_record(all, either) {
        assert forall|i: int| 0 <= i < records.len() implies p(#[trigger] records[i]) by {
            assert(records.contains(records[i]));
            lemma_items_of_key::<CachedModule>(all, name, records[i]);
            let j = all.index_of(records[i]);
            assert(all[j] == records[i]);
            assert(either(all[j]));
        }
    }
    if every_record(records, p) {
        assert forall|j: int| 0 <= j < all.len() implies either(#[trigger] all[j]) by {
            if all[j].name == name {
                assert(all.contains(all[j]) && CachedModule::key(all[j]) == name);
                lemma_items_of_key::<CachedModule>(all, name, all[j]);
                assert(records.contains(all[j]));
                let i = records.index_of(all[j]);
                assert(records[i] == all[j]);
                assert(p(records[i]));
            }
        }
    }
}

/// Every module of any cache is in the merge.
pub proof fn lemma_no_module_is_lost(modules: Seq<ModuleView>, all: Seq<ModuleView>, i: int)
    requires
        is_coalesced(modules, all),
        0 <= i < all.len(),
    ensures
        some_record(modules, |r: ModuleView| r.name == all[i].name),
{
    lemma_coalesced_names(modules, all, all[i].name);
    let p = |r: ModuleView| r.name == all[i].name;
    let k = choose|k: int| 0 <= k < modules.len() && (#[trigger] modules[k]).name == all[i].name;
    assert(p(modules[k]));
}

/// The caches are joined one behind another.
pub proof fn lemma_joined_caches(caches: Seq<CacheView>, next: CacheView)
    ensures
        joined_modules(Seq::empty()).len() == 0,
        joined_modules(caches.push(next)) == joined_modules(caches) + next.modules,
        joined_re_exports(Seq::empty()).len() == 0,
        joined_re_exports(caches.push(next)) == joined_re_exports(caches) + next.re_exports,
        joined_class_facts(Seq::empty()).class_bases.dom().is_empty(),
        joined_class_facts(Seq::empty()).constructor_callees.dom().is_empty(),
        joined_class_facts(caches.push(next)).class_bases == folded_bases(
            joined_class_facts(caches).class_bases,
            next.class_bases,
        ),
        joined_class_facts(caches.push(next)).constructor_callees == folded_callees(
            joined_class_facts(caches).constructor_callees,
            next.constructor_callees,
        ),
{
    assert(caches.push(next).drop_last() =~= caches);
}

/// Whether the re-export at `p` is the first under its exported name.
pub open spec fn is_first_export(re_exports: Seq<ReExportView>, p: int) -> bool {
    &&& 0 <= p < re_exports.len()
    &&& forall|q: int|
        0 <= q < p ==> !((#[trigger] re_exports[q]).exported_module
            == re_exports[p].exported_module && re_exports[q].exported_attr
            == re_exports[p].exported_attr)
}

/// What is kept of the re-exports is the first under each exported name, whole.
pub proof fn lemma_first_exports_are_kept(re_exports: Seq<ReExportView>, value: ReExportView)
    ensures
        first_exports(re_exports).contains(value) <==> exists|p: int| #[trigger]
            is_first_export(re_exports, p) && re_exports[p] == value,
    decreases re_exports.len(),
{
    if re_exports.len() > 0 {
        let shorter = re_exports.drop_last();
        let next = re_exports.last();
        let n = shorter.len() as int;
        let kept = first_exports(shorter);
        lemma_first_exports_are_kept(shorter, value);
        assert(re_exports[n] == next);
        assert forall|p: int| 0 <= p < n implies (is_first_export(shorter, p)
            <==> #[trigger] is_first_export(re_exports, p)) by {
            assert forall|q: int| 0 <= q < n implies #[trigger] shorter[q] == re_exports[q] by {}
            if is_first_export(re_exports, p) {
                assert forall|q: int| 0 <= q < p implies !((#[trigger] shorter[q]).exported_module
                    == shorter[p].exported_module && shorter[q].exported_attr
                    == shorter[p].exported_attr) by {
                    assert(re_exports[q] == shorter[q]);
                }
            }
            if is_first_export(shorter, p) {
                assert forall|q: int|
                    0 <= q < p implies !((#[trigger] re_exports[q]).exported_module
                    == re_exports[p].exported_module && re_exports[q].exported_attr
                    == re_exports[p].exported_attr) by {
                    assert(re_exports[q] == shorter[q]);
                }
            }
        }
        crate::merge::lemma_first_exports(shorter);
        let known = is_exported(kept, next.exported_module, next.exported_attr);
        assert(known <==> !is_first_export(re_exports, n)) by {
            assert(known <==> is_exported(shorter, next.exported_module, next.exported_attr));
            if is_exported(shorter, next.exported_module, next.exported_attr) {
                let q = choose|q: int|
                    0 <= q < shorter.len() && (#[trigger] shorter[q]).exported_module
                        == next.exported_module && shorter[q].exported_attr == next.exported_attr;
                assert(re_exports[q] == shorter[q]);
            }
            if !is_first_export(re_exports, n) {
                let q = choose|q: int|
                    0 <= q < n && (#[trigger] re_exports[q]).exported_module
                        == re_exports[n].exported_module && re_exports[q].exported_attr
                        == re_exports[n].exported_attr;
                assert(shorter[q] == re_exports[q]);
            }
        }
        if first_exports(re_exports).contains(value) {
            if kept.contains(value) {
                let p = choose|p: int| #[trigger]
                    is_first_export(shorter, p) && shorter[p] == value;
                assert(is_first_export(re_exports, p) && re_exports[p] == value);
            } else {
                let i = first_exports(re_exports).index_of(value);
                if i < kept.len() {
                    assert(kept[i] == value);
                }
                assert(is_first_export(re_exports, n) && re_exports[n] == value);
            }
        }
        if exists|p: int| #[trigger] is_first_export(re_exports, p) && re_exports[p] == value {
            let p = choose|p: int| #[trigger]
                is_first_export(re_exports, p) && re_exports[p] == value;
            if p < n {
                assert(is_first_export(shorter, p) && shorter[p] == value);
                let i = kept.index_of(value);
                assert(kept[i] == value);
                assert(first_exports(re_exports)[i] == value);
            } else {
                assert(first_exports(re_exports)[kept.len() as int] == value);
            }
        }
    }
}

/// Folding one entry more changes that class alone: its bases are those that it had, and behind
/// them the new ones of the entry.
pub proof fn lemma_fold_one_class(
    known: Map<Seq<char>, Seq<Seq<char>>>,
    entries: Seq<(Seq<char>, Seq<Seq<char>>)>,
    class: Seq<char>,
    of_class: Seq<Seq<char>>,
    other: Seq<char>,
)
    ensures
        folded_bases(known, Seq::empty()) == known,
        ({
            let before = folded_bases(known, entries);
            let after = folded_bases(known, entries.push((class, of_class)));
            let held = if before.contains_key(class) {
                before[class]
            } else {
                Seq::empty()
            };
            &&& after.contains_key(class)
            &&& held.is_prefix_of(after[class])
            &&& forall|base: Seq<char>| #[trigger]
                after[class].contains(base) <==> held.contains(base) || of_class.contains(base)
            &&& held.no_duplicates() ==> after[class].no_duplicates()
            &&& other != class ==> after.contains_key(other) == before.contains_key(other)
                && after[other] == before[other]
        }),
{
    let longer = entries.push((class, of_class));
    assert(longer.drop_last() =~= entries);
    let before = folded_bases(known, entries);
    let held = if before.contains_key(class) {
        before[class]
    } else {
        Seq::empty()
    };
    lemma_absorb(held, of_class);
}

/// Folding one record of constructors more unites it with what the class had; a class for which
/// nothing is recorded has no entry, and no other class changes.
pub proof fn lemma_fold_one_record(
    known: Map<Seq<char>, CalleesView>,
    entries: Seq<(Seq<char>, CalleesView)>,
    class: Seq<char>,
    recorded: CalleesView,
    other: Seq<char>,
    method: (Option<Seq<char>>, Seq<char>),
    callee: Seq<char>,
)
    ensures
        folded_callees(known, Seq::empty()) == known,
        ({
            let before = folded_callees(known, entries);
            let after = folded_callees(known, entries.push((class, recorded)));
            let had = before.contains_key(class);
            let has = after.contains_key(class);
            &&& has && after[class].derived.contains(method) <==> (had
                && before[class].derived.contains(method)) || recorded.derived.contains(method)
            &&& has && after[class].extra.contains(callee) <==> (had
                && before[class].extra.contains(callee)) || recorded.extra.contains(callee)
            &&& has <==> recorded.derived.len() > 0 || recorded.extra.len() > 0 || (had && (
            before[class].derived.len() > 0 || before[class].extra.len() > 0))
            &&& other != class ==> after.contains_key(other) == before.contains_key(other)
                && after[other] == before[other]
        }),
{
    let longer = entries.push((class, recorded));
    assert(longer.drop_last() =~= entries);
    let before = folded_callees(known, entries);
    if before.contains_key(class) {
        let a = before[class];
        lemma_absorb(a.derived, recorded.derived);
        lemma_absorb(a.extra, recorded.extra);
        let u = a.merged_with(recorded);
        if recorded.derived.len() > 0 {
            assert(recorded.derived.contains(recorded.derived[0]));
            assert(u.derived.contains(recorded.derived[0]));
        }
        if recorded.extra.len() > 0 {
            assert(recorded.extra.contains(recorded.extra[0]));
            assert(u.extra.contains(recorded.extra[0]));
        }
        if u.derived.len() > 0 && a.derived.len() == 0 {
            assert(u.derived.contains(u.derived[0]));
            assert(recorded.derived.contains(u.derived[0]));
        }
        if u.extra.len() > 0 && a.extra.len() == 0 {
            assert(u.extra.contains(u.extra[0]));
            assert(recorded.extra.contains(u.extra[0]));
        }
        if u.is_empty() {
            assert(!u.derived.contains(method));
            assert(!u.extra.contains(callee));
        }
    } else if recorded.is_empty() {
        assert(!recorded.derived.contains(method));
        assert(!recorded.extra.contains(callee));
    }
}

/// Whether the record of the class holds the method.
pub open spec fn runs_method(
    records: Map<Seq<char>, CalleesView>,
    class: Seq<char>,
    method: (Option<Seq<char>>, Seq<char>),
) -> bool {
    records.contains_key(class) && records[class].derived.contains(method)
}

/// Whether the record of the class holds the callee.
pub open spec fn runs_callee(
    records: Map<Seq<char>, CalleesView>,
    class: Seq<char>,
    callee: Seq<char>,
) -> bool {
    records.contains_key(class) && records[class].extra.contains(callee)
}

/// Something is recorded for a class exactly if it was before or some entry records it.
pub proof fn lemma_folded_records(
    known: Map<Seq<char>, CalleesView>,
    entries: Seq<(Seq<char>, CalleesView)>,
    class: Seq<char>,
    method: (Option<Seq<char>>, Seq<char>),
    callee: Seq<char>,
)
    ensures
        runs_method(folded_callees(known, entries), class, method) <==> runs_method(
            known,
            class,
            method,
        ) || exists|i: int|
            0 <= i < entries.len() && (#[trigger] entries[i]).0 == class
                && entries[i].1.derived.contains(method),
        runs_callee(folded_callees(known, entries), class, callee) <==> runs_callee(
            known,
            class,
            callee,
        ) || exists|i: int|
            0 <= i < entries.len() && (#[trigger] entries[i]).0 == class
                && entries[i].1.extra.contains(callee),
    decreases entries.len(),
{
    if entries.len() == 0 {
        assert(entries =~= Seq::<(Seq<char>, CalleesView)>::empty());
        lemma_fold_one_record(known, entries, class, arbitrary(), class, method, callee);
    } else {
        let shorter = entries.drop_last();
        let last = entries.last();
        let n = shorter.len() as int;
        lemma_folded_records(known, shorter, class, method, callee);
        lemma_fold_one_record(known, shorter, last.0, last.1, class, method, callee);
        assert(shorter.push(last) =~= entries);
        assert(entries[n] == last);
        if exists|i: int|
            0 <= i < shorter.len() && (#[trigger] shorter[i]).0 == class
                && shorter[i].1.derived.contains(method) {
            let i = choose|i: int|
                0 <= i < shorter.len() && (#[trigger] shorter[i]).0 == class
                    && shorter[i].1.derived.contains(method);
            assert(entries[i] == shorter[i]);
        }
        if exists|i: int|
            0 <= i < shorter.len() && (#[trigger] shorter[i]).0 == class
                && shorter[i].1.extra.contains(callee) {
            let i = choose|i: int|
                0 <= i < shorter.len() && (#[trigger] shorter[i]).0 == class
                    && shorter[i].1.extra.contains(callee);
            assert(entries[i] == shorter[i]);
        }
        if exists|i: int|
            0 <= i < entries.len() && (#[trigger] entries[i]).0 == class
                && entries[i].1.derived.contains(method) {
            let i = choose|i: int|
                0 <= i < entries.len() && (#[trigger] entries[i]).0 == class
                    && entries[i].1.derived.contains(method);
            if i < n {
                assert(entries[i] == shorter[i]);
            }
        }
        if exists|i: int|
            0 <= i < entries.len() && (#[trigger] entries[i]).0 == class
                && entries[i].1.extra.contains(callee) {
            let i = choose|i: int|
                0 <= i < entries.len() && (#[trigger] entries[i]).0 == class
                    && entries[i].1.extra.contains(callee);
            if i < n {
                assert(entries[i] == shorter[i]);
            }
        }
    }
}

/// One item more is kept exactly if it is not marked, behind those that are kept.
pub proof fn lemma_unmarked_one_more<A>(items: Seq<A>, marks: Seq<bool>, item: A, mark: bool)
    requires
        items.len() == marks.len(),
    ensures
        unmarked(Seq::<A>::empty(), Seq::empty()).len() == 0,
        unmarked(items.push(item), marks.push(mark)) == (if mark {
            unmarked(items, marks)
        } else {
            unmarked(items, marks).push(item)
        }),
{
    assert(items.push(item).drop_last() =~= items);
    assert(marks.push(mark).drop_last() =~= marks);
}

} // verus!
