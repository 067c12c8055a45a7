//! Laws of verdicts and errors.
use vstd::prelude::*;

use crate::artifact::empty_module;
use crate::artifact::module_names;
use crate::artifact::CalleesView;
use crate::artifact::ModuleView;
use crate::artifact::SafetyView;
use crate::errors::ErrorKind;
use crate::names::absorb;
use crate::names::lemma_absorb;
use crate::resolution::OutcomeView;
use crate::resolver::worst;
use crate::safety::FunctionSafety;
use crate::safety::SafetyFacts;

verus! {

/// The worse of two verdicts is `Unsafe` if either is, and `Safe` only if both are.
pub proof fn lemma_worse_verdict(a: FunctionSafety, b: FunctionSafety)
    ensures
        a.worse(b) == FunctionSafety::Unsafe <==> a == FunctionSafety::Unsafe || b
            == FunctionSafety::Unsafe,
        a.worse(b) == FunctionSafety::Safe <==> a == FunctionSafety::Safe && b
            == FunctionSafety::Safe,
{
}

/// Joining two records keeps every concern of either and makes up none.
pub proof fn lemma_joined_facts(a: SafetyFacts, b: SafetyFacts, concern: Seq<char>)
    ensures
        a.join(b).verdict == FunctionSafety::Unsafe <==> a.verdict == FunctionSafety::Unsafe
            || b.verdict == FunctionSafety::Unsafe,
        a.join(b).verdict == FunctionSafety::Safe <==> a.verdict == FunctionSafety::Safe
            && b.verdict == FunctionSafety::Safe,
        a.join(b).concerns.contains(concern) <==> a.concerns.contains(concern)
            || b.concerns.contains(concern),
{
}

/// The worst verdict is `Unsafe` if any is, `Safe` if all are, and there is one unless there is
/// none to choose from.
pub proof fn lemma_worst_verdict(verdicts: Seq<FunctionSafety>)
    ensures
        worst(verdicts) is None <==> verdicts.len() == 0,
        worst(verdicts) == Some(FunctionSafety::Unsafe) <==> exists|i: int|
            0 <= i < verdicts.len() && #[trigger] verdicts[i] == FunctionSafety::Unsafe,
        worst(verdicts) == Some(FunctionSafety::Safe) <==> verdicts.len() > 0 && forall|i: int|
            0 <= i < verdicts.len() ==> #[trigger] verdicts[i] == FunctionSafety::Safe,
    decreases verdicts.len(),
{
    if verdicts.len() > 0 {
        let shorter = verdicts.drop_last();
        let last = verdicts.last();
        lemma_worst_verdict(shorter);
        assert(verdicts[verdicts.len() - 1] == last);
        assert forall|i: int| 0 <= i < shorter.len() implies #[trigger] shorter[i]
            == verdicts[i] by {}
        if exists|i: int|
            0 <= i < shorter.len() && #[trigger] shorter[i] == FunctionSafety::Unsafe {
            let i = choose|i: int|
                0 <= i < shorter.len() && #[trigger] shorter[i] == FunctionSafety::Unsafe;
            assert(verdicts[i] == FunctionSafety::Unsafe);
        }
        if exists|i: int|
            0 <= i < verdicts.len() && #[trigger] verdicts[i] == FunctionSafety::Unsafe {
            let i = choose|i: int|
                0 <= i < verdicts.len() && #[trigger] verdicts[i] == FunctionSafety::Unsafe;
            if i < shorter.len() {
                assert(shorter[i] == FunctionSafety::Unsafe);
            }
        }
        if forall|i: int|
            0 <= i < verdicts.len() ==> #[trigger] verdicts[i] == FunctionSafety::Safe {
            assert forall|i: int| 0 <= i < shorter.len() implies #[trigger] shorter[i]
                == FunctionSafety::Safe by {
                assert(verdicts[i] == FunctionSafety::Safe);
            }
        }
        if worst(verdicts) == Some(FunctionSafety::Safe) {
            assert forall|i: int| 0 <= i < verdicts.len() implies #[trigger] verdicts[i]
                == FunctionSafety::Safe by {
                if i < shorter.len() {
                    assert(shorter[i] == FunctionSafety::Safe);
                }
            }
        }
    }
}

/// An error about a call or a decorator may be there for want of an import; one about an argument
/// never is.
pub proof fn lemma_what_hangs_on_imports(kind: ErrorKind)
    ensures
        kind == ErrorKind::UnsafeFunctionCall || kind == ErrorKind::UnknownFunctionCall || kind
            == ErrorKind::UnknownMethodCall || kind == ErrorKind::UnsafeDecoratorCall || kind
            == ErrorKind::UnknownDecoratorCall ==> kind.hangs_on_import(),
        kind == ErrorKind::ImportedVarArgument ==> !kind.hangs_on_import(),
        kind matches ErrorKind::Other { from_missing_import, .. } ==> kind.hangs_on_import()
            == from_missing_import,
{
}

/// Two kinds of error have one place in the order only if they are one kind.
pub proof fn lemma_ranks_tell_kinds_apart(a: ErrorKind, b: ErrorKind)
    ensures
        a.rank() == b.rank() <==> a == b,
{
}

/// Unsafe function calls come first, then unknown ones, method calls, unsafe and unknown
/// decorators, and arguments; every other error comes behind, by its code.
pub proof fn lemma_order_of_kinds(a: u16, b: u16, p: bool, q: bool)
    ensures
        ErrorKind::UnsafeFunctionCall.rank() < ErrorKind::UnknownFunctionCall.rank(),
        ErrorKind::UnknownFunctionCall.rank() < ErrorKind::UnknownMethodCall.rank(),
        ErrorKind::UnknownMethodCall.rank() < ErrorKind::UnsafeDecoratorCall.rank(),
        ErrorKind::UnsafeDecoratorCall.rank() < ErrorKind::UnknownDecoratorCall.rank(),
        ErrorKind::UnknownDecoratorCall.rank() < ErrorKind::ImportedVarArgument.rank(),
        ErrorKind::ImportedVarArgument.rank() < (ErrorKind::Other {
            code: a,
            from_missing_import: p,
        }).rank(),
        a < b ==> (ErrorKind::Other { code: a, from_missing_import: p }).rank() < (
        ErrorKind::Other { code: b, from_missing_import: q }).rank(),
        !p && q ==> (ErrorKind::Other { code: a, from_missing_import: p }).rank() < (
        ErrorKind::Other { code: a, from_missing_import: q }).rank(),
{
}

/// The record of an unknown module has its name and holds nothing against it.
pub proof fn lemma_empty_module(name: Seq<char>)
    ensures
        ({
            let module = empty_module(name);
            &&& module.name == name
            &&& module.imports.is_empty()
            &&& module.missing_imports.is_empty()
            &&& module.ambiguous_imports.is_empty()
            &&& module.side_effect_imports.is_empty()
            &&& module.function_safety.dom().is_empty()
            &&& module.mutation_candidates.len() == 0
            &&& module.safety matches SafetyView::Analyzed(findings)
            &&& findings.errors.len() == 0
            &&& findings.overrides.len() == 0
            &&& findings.implicit_imports.len() == 0
        }),
{
}

/// A name is among those of the modules exactly if some module has it.
pub proof fn lemma_module_names(modules: Seq<ModuleView>, name: Seq<char>)
    ensures
        module_names(modules).contains(name) <==> exists|i: int|
            0 <= i < modules.len() && (#[trigger] modules[i]).name == name,
{
    let names = modules.map_values(|module: ModuleView| module.name);
    if names.contains(name) {
        let i = names.index_of(name);
        assert(names[i] == name);
        assert(modules[i].name == name);
    }
    if exists|i: int| 0 <= i < modules.len() && (#[trigger] modules[i]).name == name {
        let i = choose|i: int| 0 <= i < modules.len() && (#[trigger] modules[i]).name == name;
        assert(names[i] == name);
    }
}

/// Absorbing keeps the first list in front and adds the new names of the second, each once, in
/// the order in which they first come.
pub proof fn lemma_absorb_order<A>(first: Seq<A>, second: Seq<A>, i: int, j: int)
    requires
        first.len() <= i < j < absorb(first, second).len(),
    ensures
        ({
            let r = absorb(first, second);
            &&& r.take(first.len() as int) == first
            &&& !first.contains(r[i])
            &&& r[i] != r[j]
            &&& exists|p: int, q: int| #[trigger]
                first_stands_at(second, r[i], p) && #[trigger] first_stands_at(second, r[j], q) && p
                    < q
        }),
    decreases second.len(),
{
    lemma_absorb(first, second);
    let r = absorb(first, second);
    assert(r.take(first.len() as int) =~= first);
    lemma_absorbed_at(first, second, i);
    if second.len() > 0 {
        let shorter = second.drop_last();
        let before = absorb(first, shorter);
        if j < before.len() {
            assert(r[i] == before[i] && r[j] == before[j]);
            lemma_absorb_order(first, shorter, i, j);
            let (p, q) = choose|p: int, q: int| #[trigger]
                first_stands_at(shorter, r[i], p) && #[trigger] first_stands_at(shorter, r[j], q)
                    && p < q;
            assert(shorter.take(p) =~= second.take(p));
            assert(shorter.take(q) =~= second.take(q));
            assert(first_stands_at(second, r[i], p) && first_stands_at(second, r[j], q));
        } else {
            assert(r[i] == before[i]);
            assert(before.contains(before[i]));
            lemma_absorbed_at(first, shorter, i);
            let p = choose|p: int| first_stands_at(shorter, before[i], p);
            let q = second.len() - 1;
            assert(shorter.take(p) =~= second.take(p));
            assert(first_stands_at(second, r[i], p));
            lemma_absorb(first, shorter);
            assert(!shorter.contains(second.last()));
            assert(second.take(q) =~= shorter);
            assert(first_stands_at(second, r[j], q));
        }
    }
}

/// Whether `value` stands at `p` and nowhere before.
pub open spec fn first_stands_at<A>(items: Seq<A>, value: A, p: int) -> bool {
    0 <= p < items.len() && items[p] == value && !items.take(p).contains(value)
}

/// What is absorbed is new, and comes from the second list.
pub proof fn lemma_absorbed_at<A>(first: Seq<A>, second: Seq<A>, i: int)
    requires
        first.len() <= i < absorb(first, second).len(),
    ensures
        !first.contains(absorb(first, second)[i]),
        exists|p: int| first_stands_at(second, absorb(first, second)[i], p),
    decreases second.len(),
{
    let r = absorb(first, second);
    if second.len() > 0 {
        let shorter = second.drop_last();
        let before = absorb(first, shorter);
        lemma_absorb(first, shorter);
        if i < before.len() {
            lemma_absorbed_at(first, shorter, i);
            assert(r[i] == before[i]);
            let p = choose|p: int| first_stands_at(shorter, before[i], p);
            assert(shorter.take(p) =~= second.take(p));
            assert(first_stands_at(second, r[i], p));
        } else {
            let p = second.len() - 1;
            assert(!before.contains(second.last()));
            assert(!shorter.contains(second.last()));
            assert(second.take(p) =~= shorter);
            assert(first_stands_at(second, r[i], p));
        }
    }
}

/// Two records of callees, merged, hold what either holds, that of the first in front.
pub proof fn lemma_merged_callees(
    a: CalleesView,
    b: CalleesView,
    method: (Option<Seq<char>>, Seq<char>),
    callee: Seq<char>,
)
    ensures
        a.merged_with(b).derived.contains(method) <==> a.derived.contains(method)
            || b.derived.contains(method),
        a.merged_with(b).extra.contains(callee) <==> a.extra.contains(callee) || b.extra.contains(
            callee,
        ),
        a.derived.is_prefix_of(a.merged_with(b).derived),
        a.extra.is_prefix_of(a.merged_with(b).extra),
        a.is_empty() <==> a.derived.len() == 0 && a.extra.len() == 0,
{
    lemma_absorb(a.derived, b.derived);
    lemma_absorb(a.extra, b.extra);
}

/// A method without an owner belongs to the class itself.
pub proof fn lemma_owned_callees(callees: CalleesView, class: Seq<char>, i: int)
    requires
        0 <= i < callees.derived.len(),
    ensures
        callees.owned_by(class).len() == callees.derived.len(),
        callees.owned_by(class)[i].1 == callees.derived[i].1,
        callees.derived[i].0 is None ==> callees.owned_by(class)[i].0 == class,
        callees.derived[i].0 matches Some(owner) ==> callees.owned_by(class)[i].0 == owner,
{
}

/// There is evidence exactly if a function was promoted or a candidate was found safe.
pub proof fn lemma_evidence(outcome: OutcomeView)
    ensures
        outcome.has_evidence() <==> outcome.resolved_to_safe || exists|name: Seq<char>| #[trigger]
            outcome.promoted.contains(name),
{
    if outcome.promoted != Set::<Seq<char>>::empty() {
        assert(exists|name: Seq<char>| #[trigger] outcome.promoted.contains(name)) by {
            if forall|name: Seq<char>| !#[trigger] outcome.promoted.contains(name) {
                assert(outcome.promoted =~= Set::<Seq<char>>::empty());
            }
        }
    }
}

} // verus!
