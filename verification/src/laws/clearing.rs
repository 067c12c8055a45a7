//! Laws of which errors go and which stay.
use vstd::prelude::*;

use crate::artifact::CachedModule;
use crate::artifact::CalleesView;
use crate::artifact::ModuleView;
use crate::artifact::SafetyView;
use crate::clearing::are_modules_cleared;
use crate::clearing::cleared_module;
use crate::clearing::errors_of;
use crate::clearing::finalized_modules;
use crate::clearing::goes_at_the_end;
use crate::clearing::is_module_cleared;
use crate::clearing::kept_errors;
use crate::clearing::lemma_module_cleared;
use crate::errors::CachedError;
use crate::errors::ErrorKind;
use crate::errors::ErrorView;
use crate::laws::merging::has_error;
use crate::laws::resolving::decorates;
use crate::laws::resolving::has_own;
use crate::laws::resolving::has_verdict;
use crate::laws::resolving::inherits;
use crate::laws::resolving::is_judged;
use crate::laws::resolving::is_not_judged;
use crate::laws::resolving::is_unbound;
use crate::laws::resolving::lemma_judged;
use crate::laws::resolving::lemma_name_is_split;
use crate::laws::resolving::lemma_safe_call;
use crate::laws::resolving::lemma_safe_decorator;
use crate::laws::resolving::lemma_safe_unbound_call;
use crate::laws::resolving::splits_into;
use crate::laws::verdicts::lemma_evidence;
use crate::laws::verdicts::lemma_worst_verdict;
use crate::merge::ClassFactsView;
use crate::names::ModuleName;
use crate::resolution::OutcomeView;
use crate::resolver::split_name;
use crate::resolver::worst;
use crate::resolver::ResolverView;
use crate::resolver::Verdicts;
use crate::safety::FunctionSafety;
use crate::text::dotted;
use crate::text::strip_calls;

verus! {

/// Whether the method of the class `owner` has the verdict of the module that defines the class.
pub open spec fn is_method_judged(
    modules: Set<Seq<char>>,
    by_module: Map<Seq<char>, Verdicts>,
    owner: Seq<char>,
    method: Seq<char>,
    verdict: FunctionSafety,
) -> bool {
    exists|module: Seq<char>, local: Seq<char>| #[trigger]
        splits_into(modules, owner, module, local) && has_own(
            by_module,
            module,
            local + seq!['.'] + method,
            verdict,
        )
}

/// Whether the class is one that `module` defines.
pub open spec fn is_defined_in(
    modules: Set<Seq<char>>,
    class: Seq<char>,
    module: Seq<char>,
) -> bool {
    exists|local: Seq<char>| splits_into(modules, class, module, local)
}

/// The class that a recorded method belongs to: its owner, else the class itself.
pub open spec fn owner_of(method: (Option<Seq<char>>, Seq<char>), class: Seq<char>) -> Seq<char> {
    match method.0 {
        Some(owner) => owner,
        None => class,
    }
}

/// Whether each thing that runs when `class` is instantiated is safe, or is safe where it is
/// defined and `caller` is the module that defines the class.
pub open spec fn may_instantiate(
    modules: Set<Seq<char>>,
    by_module: Map<Seq<char>, Verdicts>,
    record: CalleesView,
    caller: Seq<char>,
    class: Seq<char>,
) -> bool {
    &&& forall|i: int|
        0 <= i < record.derived.len() ==> {
            let owner = owner_of(#[trigger] record.derived[i], class);
            let method = record.derived[i].1;
            ||| is_method_judged(modules, by_module, owner, method, FunctionSafety::Safe)
            ||| is_method_judged(
                modules,
                by_module,
                owner,
                method,
                FunctionSafety::UnsafeIfImported,
            ) && is_defined_in(modules, class, caller)
        }
    &&& forall|i: int|
        0 <= i < record.extra.len() ==> {
            let name = #[trigger] record.extra[i];
            ||| is_judged(modules, by_module, name, FunctionSafety::Safe)
            ||| is_judged(modules, by_module, name, FunctionSafety::UnsafeIfImported)
                && is_defined_in(modules, class, caller)
        }
}

/// Whether something is recorded that runs when `class` is instantiated.
pub open spec fn has_record(
    constructor_callees: Map<Seq<char>, CalleesView>,
    class: Seq<char>,
) -> bool {
    constructor_callees.contains_key(class) && (constructor_callees[class].derived.len() > 0
        || constructor_callees[class].extra.len() > 0)
}

/// The verdict on a recorded method is that of the module that defines its class.
pub proof fn lemma_recorded_method(
    r: ResolverView,
    owner: Seq<char>,
    method: Seq<char>,
    verdict: FunctionSafety,
)
    requires
        verdict != FunctionSafety::Unsafe,
    ensures
        r.callee_verdict(owner, method) == verdict <==> is_method_judged(
            r.modules,
            r.by_module,
            owner,
            method,
            verdict,
        ),
{
    match split_name(r.modules, owner) {
        Some(parts) => {
            lemma_name_is_split(r.modules, owner, parts.0, parts.1);
            assert forall|m: Seq<char>, l: Seq<char>| #[trigger]
                splits_into(r.modules, owner, m, l) implies m == parts.0 && l == parts.1 by {
                lemma_name_is_split(r.modules, owner, m, l);
            }
            assert(dotted(parts.1, method) == parts.1 + seq!['.'] + method);
        },
        None => {
            assert forall|m: Seq<char>, l: Seq<char>| !#[trigger] splits_into(
                r.modules,
                owner,
                m,
                l,
            ) by {
                lemma_name_is_split(r.modules, owner, m, l);
            }
        },
    }
}

/// A callee that is recorded by its full name has the verdict on that name, and is `Unsafe` where
/// there is none.
pub proof fn lemma_recorded_callee(r: ResolverView, callee: Seq<char>)
    ensures
        is_judged(r.modules, r.by_module, callee, r.recorded_callee_verdict(callee))
            || r.recorded_callee_verdict(callee) == FunctionSafety::Unsafe,
        is_not_judged(r.modules, r.by_module, callee) ==> r.recorded_callee_verdict(callee)
            == FunctionSafety::Unsafe,
        is_judged(r.modules, r.by_module, callee, FunctionSafety::Safe)
            ==> r.recorded_callee_verdict(callee) == FunctionSafety::Safe,
        is_judged(r.modules, r.by_module, callee, FunctionSafety::UnsafeIfImported)
            ==> r.recorded_callee_verdict(callee) == FunctionSafety::UnsafeIfImported,
{
    lemma_judged(r, callee, r.recorded_callee_verdict(callee));
    lemma_judged(r, callee, FunctionSafety::Safe);
    lemma_judged(r, callee, FunctionSafety::UnsafeIfImported);
}

/// Whether each thing that is recorded for the class has the verdict.
pub open spec fn all_judged(
    modules: Set<Seq<char>>,
    by_module: Map<Seq<char>, Verdicts>,
    record: CalleesView,
    class: Seq<char>,
    verdict: FunctionSafety,
) -> bool {
    &&& forall|i: int|
        0 <= i < record.derived.len() ==> is_method_judged(
            modules,
            by_module,
            owner_of(#[trigger] record.derived[i], class),
            record.derived[i].1,
            verdict,
        )
    &&& forall|i: int|
        0 <= i < record.extra.len() ==> is_judged(
            modules,
            by_module,
            #[trigger] record.extra[i],
            verdict,
        )
}

/// Whether something that is recorded for the class is neither `Safe` nor `UnsafeIfImported`.
pub open spec fn some_not_judged(
    modules: Set<Seq<char>>,
    by_module: Map<Seq<char>, Verdicts>,
    record: CalleesView,
    class: Seq<char>,
) -> bool {
    ||| exists|i: int|
        0 <= i < record.derived.len() && !is_method_judged(
            modules,
            by_module,
            owner_of(#[trigger] record.derived[i], class),
            record.derived[i].1,
            FunctionSafety::Safe,
        ) && !is_method_judged(
            modules,
            by_module,
            owner_of(record.derived[i], class),
            record.derived[i].1,
            FunctionSafety::UnsafeIfImported,
        )
    ||| exists|i: int|
        0 <= i < record.extra.len() && !is_judged(
            modules,
            by_module,
            #[trigger] record.extra[i],
            FunctionSafety::Safe,
        ) && !is_judged(
            modules,
            by_module,
            record.extra[i],
            FunctionSafety::UnsafeIfImported,
        )
}

/// The verdict on the constructors of a class is `Safe` if all that is recorded is, and `Unsafe`
/// if anything is `Unsafe` or not known.
pub proof fn lemma_constructor_verdict(r: ResolverView, class: Seq<char>)
    requires
        r.constructor_callees is Some,
        has_record(r.constructor_callees->0, class),
    ensures
        ({
            let record = (r.constructor_callees->0)[class];
            &&& r.constructor_verdict(class) == Some(FunctionSafety::Safe) <==> all_judged(
                r.modules,
                r.by_module,
                record,
                class,
                FunctionSafety::Safe,
            )
            &&& r.constructor_verdict(class) == Some(FunctionSafety::Unsafe) <==> some_not_judged(
                r.modules,
                r.by_module,
                record,
                class,
            )
        }),
{
    let record = (r.constructor_callees->0)[class];
    let verdicts = r.callee_verdicts(record, class);
    let n = record.derived.len() as int;
    lemma_worst_verdict(verdicts);
    lemma_verdicts_of_record(r, record, class);
    if all_judged(r.modules, r.by_module, record, class, FunctionSafety::Safe) {
        assert forall|i: int| 0 <= i < verdicts.len() implies #[trigger] verdicts[i]
            == FunctionSafety::Safe by {
            if i < n {
                let method = record.derived[i];
            } else {
                let name = record.extra[i - n];
            }
        }
    }
    if forall|i: int| 0 <= i < verdicts.len() ==> #[trigger] verdicts[i] == FunctionSafety::Safe {
        assert forall|i: int| 0 <= i < record.derived.len() implies is_method_judged(
            r.modules,
            r.by_module,
            owner_of(#[trigger] record.derived[i], class),
            record.derived[i].1,
            FunctionSafety::Safe,
        ) by {
            let v = verdicts[i];
        }
        assert forall|i: int| 0 <= i < record.extra.len() implies is_judged(
            r.modules,
            r.by_module,
            #[trigger] record.extra[i],
            FunctionSafety::Safe,
        ) by {
            let v = verdicts[n + i];
        }
    }
    if exists|i: int|
        0 <= i < verdicts.len() && #[trigger] verdicts[i] == FunctionSafety::Unsafe {
        let i = choose|i: int|
            0 <= i < verdicts.len() && #[trigger] verdicts[i] == FunctionSafety::Unsafe;
        if i < n {
            let method = record.derived[i];
        } else {
            let name = record.extra[i - n];
        }
        assert(some_not_judged(r.modules, r.by_module, record, class));
    }
    if some_not_judged(r.modules, r.by_module, record, class) {
        if exists|i: int|
            0 <= i < record.derived.len() && !is_method_judged(
                r.modules,
                r.by_module,
                owner_of(#[trigger] record.derived[i], class),
                record.derived[i].1,
                FunctionSafety::Safe,
            ) && !is_method_judged(
                r.modules,
                r.by_module,
                owner_of(record.derived[i], class),
                record.derived[i].1,
                FunctionSafety::UnsafeIfImported,
            ) {
            let i = choose|i: int|
                0 <= i < record.derived.len() && !is_method_judged(
                    r.modules,
                    r.by_module,
                    owner_of(#[trigger] record.derived[i], class),
                    record.derived[i].1,
                    FunctionSafety::Safe,
                ) && !is_method_judged(
                    r.modules,
                    r.by_module,
                    owner_of(record.derived[i], class),
                    record.derived[i].1,
                    FunctionSafety::UnsafeIfImported,
                );
            assert(verdicts[i] == FunctionSafety::Unsafe);
        } else {
            let i = choose|i: int|
                0 <= i < record.extra.len() && !is_judged(
                    r.modules,
                    r.by_module,
                    #[trigger] record.extra[i],
                    FunctionSafety::Safe,
                ) && !is_judged(
                    r.modules,
                    r.by_module,
                    record.extra[i],
                    FunctionSafety::UnsafeIfImported,
                );
            assert(verdicts[n + i] == FunctionSafety::Unsafe);
        }
    }
}

proof fn lemma_verdicts_of_record(r: ResolverView, record: CalleesView, class: Seq<char>)
    ensures
        ({
            let verdicts = r.callee_verdicts(record, class);
            let n = record.derived.len() as int;
            &&& verdicts.len() == record.derived.len() + record.extra.len()
            &&& forall|i: int|
                0 <= i < n ==> {
                    let owner = owner_of(#[trigger] record.derived[i], class);
                    let method = record.derived[i].1;
                    &&& verdicts[i] == FunctionSafety::Safe <==> is_method_judged(
                        r.modules,
                        r.by_module,
                        owner,
                        method,
                        FunctionSafety::Safe,
                    )
                    &&& verdicts[i] == FunctionSafety::UnsafeIfImported <==> is_method_judged(
                        r.modules,
                        r.by_module,
                        owner,
                        method,
                        FunctionSafety::UnsafeIfImported,
                    )
                }
            &&& forall|i: int|
                0 <= i < record.extra.len() ==> {
                    let name = #[trigger] record.extra[i];
                    &&& verdicts[n + i] == FunctionSafety::Safe <==> is_judged(
                        r.modules,
                        r.by_module,
                        name,
                        FunctionSafety::Safe,
                    )
                    &&& verdicts[n + i] == FunctionSafety::UnsafeIfImported <==> is_judged(
                        r.modules,
                        r.by_module,
                        name,
                        FunctionSafety::UnsafeIfImported,
                    )
                }
        }),
{
    let verdicts = r.callee_verdicts(record, class);
    let owned = record.owned_by(class);
    let n = record.derived.len() as int;
    assert forall|i: int| 0 <= i < n implies {
        let owner = owner_of(#[trigger] record.derived[i], class);
        let method = record.derived[i].1;
        &&& verdicts[i] == FunctionSafety::Safe <==> is_method_judged(
            r.modules,
            r.by_module,
            owner,
            method,
            FunctionSafety::Safe,
        )
        &&& verdicts[i] == FunctionSafety::UnsafeIfImported <==> is_method_judged(
            r.modules,
            r.by_module,
            owner,
            method,
            FunctionSafety::UnsafeIfImported,
        )
    } by {
        let owner = owner_of(record.derived[i], class);
        let method = record.derived[i].1;
        assert(owned[i].0 == owner && owned[i].1 == method);
        assert(verdicts[i] == r.callee_verdict(owner, method));
        lemma_recorded_method(r, owner, method, FunctionSafety::Safe);
        lemma_recorded_method(r, owner, method, FunctionSafety::UnsafeIfImported);
    }
    assert forall|i: int| 0 <= i < record.extra.len() implies {
        let name = #[trigger] record.extra[i];
        &&& verdicts[n + i] == FunctionSafety::Safe <==> is_judged(
            r.modules,
            r.by_module,
            name,
            FunctionSafety::Safe,
        )
        &&& verdicts[n + i] == FunctionSafety::UnsafeIfImported <==> is_judged(
            r.modules,
            r.by_module,
            name,
            FunctionSafety::UnsafeIfImported,
        )
    } by {
        let name = record.extra[i];
        assert(verdicts[n + i] == r.recorded_callee_verdict(name));
        lemma_recorded_callee(r, name);
    }
}

/// A verdict lets every module instantiate the class if it is `Safe`, only the defining one if it
/// is `UnsafeIfImported`, and none if it is `Unsafe`.
pub proof fn lemma_who_may_instantiate(r: ResolverView, caller: Seq<char>, class: Seq<char>)
    ensures
        r.verdict_clears(FunctionSafety::Safe, caller, class),
        r.verdict_clears(FunctionSafety::UnsafeIfImported, caller, class) <==> is_defined_in(
            r.modules,
            class,
            caller,
        ),
        !r.verdict_clears(FunctionSafety::Unsafe, caller, class),
{
    match split_name(r.modules, class) {
        Some(parts) => {
            lemma_name_is_split(r.modules, class, parts.0, parts.1);
            if is_defined_in(r.modules, class, caller) {
                let local = choose|local: Seq<char>| splits_into(r.modules, class, caller, local);
                lemma_name_is_split(r.modules, class, caller, local);
            }
        },
        None => {
            if is_defined_in(r.modules, class, caller) {
                let local = choose|local: Seq<char>| splits_into(r.modules, class, caller, local);
                lemma_name_is_split(r.modules, class, caller, local);
            }
        },
    }
}

proof fn lemma_worst_allows(
    r: ResolverView,
    verdicts: Seq<FunctionSafety>,
    caller: Seq<char>,
    class: Seq<char>,
)
    requires
        verdicts.len() > 0,
    ensures
        worst(verdicts) matches Some(verdict) && (r.verdict_clears(verdict, caller, class)
            <==> forall|i: int|
            0 <= i < verdicts.len() ==> ((#[trigger] verdicts[i]) == FunctionSafety::Safe
                || verdicts[i] == FunctionSafety::UnsafeIfImported && is_defined_in(
                r.modules,
                class,
                caller,
            ))),
{
    lemma_worst_verdict(verdicts);
    lemma_who_may_instantiate(r, caller, class);
    let here = is_defined_in(r.modules, class, caller);
    let verdict = worst(verdicts)->0;
    if verdict == FunctionSafety::UnsafeIfImported && !here {
        let i = choose|i: int|
            0 <= i < verdicts.len() && #[trigger] verdicts[i] != FunctionSafety::Safe;
        assert(verdicts[i] != FunctionSafety::Safe);
    }
    if verdict == FunctionSafety::UnsafeIfImported && here {
        assert forall|i: int| 0 <= i < verdicts.len() implies ((#[trigger] verdicts[i])
            == FunctionSafety::Safe || verdicts[i] == FunctionSafety::UnsafeIfImported) by {
            assert(verdicts[i] != FunctionSafety::Unsafe);
        }
    }
}

/// Where something is recorded for a class, its constructors speak of it, and they let a module
/// instantiate it exactly if each thing that is recorded does.
pub proof fn lemma_recorded_constructors(r: ResolverView, caller: Seq<char>, class: Seq<char>)
    ensures
        r.constructor_callees is None ==> r.constructor_verdict(class) is None,
        r.constructor_callees matches Some(records) ==> {
            &&& r.constructor_verdict(class) is Some <==> has_record(records, class)
            &&& r.constructor_verdict(class) matches Some(verdict) ==> (r.verdict_clears(
                verdict,
                caller,
                class,
            ) <==> may_instantiate(r.modules, r.by_module, records[class], caller, class))
        },
{
    if let Some(records) = r.constructor_callees {
        if records.contains_key(class) {
            let record = records[class];
            let verdicts = r.callee_verdicts(record, class);
            let n = record.derived.len() as int;
            let here = is_defined_in(r.modules, class, caller);
            lemma_worst_verdict(verdicts);
            assert(verdicts.len() == record.derived.len() + record.extra.len());
            if verdicts.len() > 0 {
                lemma_worst_allows(r, verdicts, caller, class);
                lemma_verdicts_of_record(r, record, class);
                let each = forall|i: int|
                    0 <= i < verdicts.len() ==> ((#[trigger] verdicts[i]) == FunctionSafety::Safe
                        || verdicts[i] == FunctionSafety::UnsafeIfImported && here);
                if may_instantiate(r.modules, r.by_module, record, caller, class) {
                    assert forall|i: int| 0 <= i < verdicts.len() implies ((#[trigger] verdicts[i])
                        == FunctionSafety::Safe || verdicts[i] == FunctionSafety::UnsafeIfImported
                        && here) by {
                        if i < n {
                            let method = record.derived[i];
                        } else {
                            let name = record.extra[i - n];
                        }
                    }
                }
                if each {
                    assert forall|i: int| 0 <= i < record.derived.len() implies {
                        let owner = owner_of(#[trigger] record.derived[i], class);
                        let method = record.derived[i].1;
                        ||| is_method_judged(
                            r.modules,
                            r.by_module,
                            owner,
                            method,
                            FunctionSafety::Safe,
                        )
                        ||| is_method_judged(
                            r.modules,
                            r.by_module,
                            owner,
                            method,
                            FunctionSafety::UnsafeIfImported,
                        ) && here
                    } by {
                        let v = verdicts[i];
                    }
                    assert forall|i: int| 0 <= i < record.extra.len() implies {
                        let name = #[trigger] record.extra[i];
                        ||| is_judged(r.modules, r.by_module, name, FunctionSafety::Safe)
                        ||| is_judged(
                            r.modules,
                            r.by_module,
                            name,
                            FunctionSafety::UnsafeIfImported,
                        ) && here
                    } by {
                        let v = verdicts[n + i];
                    }
                }
            }
        }
    }
}

/// Whether an error of this kind names a class that may have been instantiated.
pub open spec fn may_name_class(kind: ErrorKind) -> bool {
    kind == ErrorKind::UnsafeFunctionCall || kind == ErrorKind::UnknownFunctionCall || kind
        == ErrorKind::UnsafeDecoratorCall || kind == ErrorKind::UnknownDecoratorCall
}

/// Recorded constructors speak of an error exactly if it is about a call or a decorator and names
/// a class for which something is recorded.
pub proof fn lemma_what_records_say(r: ResolverView, caller: Seq<char>, error: ErrorView)
    ensures
        ({
            let class = strip_calls(error.metadata);
            match r.constructor_callees {
                Some(records) if may_name_class(error.kind) && has_record(records, class) => {
                    r.record_clears(caller, error) == Some(
                        may_instantiate(r.modules, r.by_module, records[class], caller, class),
                    )
                },
                _ => r.record_clears(caller, error) is None,
            }
        }),
{
    lemma_recorded_constructors(r, caller, strip_calls(error.metadata));
}

/// Recorded constructors decide an error about a call or a decorator that names their class,
/// whatever else is known of the callee. They decide no other error.
pub proof fn lemma_record_decides(
    r: ResolverView,
    caller: Seq<char>,
    error: ErrorView,
    admitted: bool,
)
    ensures
        ({
            let class = strip_calls(error.metadata);
            match r.constructor_callees {
                Some(records) if may_name_class(error.kind) && has_record(records, class) => {
                    r.clears(caller, error, admitted) <==> may_instantiate(
                        r.modules,
                        r.by_module,
                        records[class],
                        caller,
                        class,
                    )
                },
                _ => r.clears(caller, error, admitted) <==> admitted && r.error_safe(error),
            }
        }),
{
    lemma_recorded_constructors(r, caller, strip_calls(error.metadata));
}

/// An unknown call is safe only by the own verdict of the module that its name begins with: no
/// base class and no index can vouch for it.
pub proof fn lemma_unknown_call_is_safe(r: ResolverView, error: ErrorView)
    requires
        error.kind == ErrorKind::UnknownFunctionCall || error.kind == ErrorKind::UnknownMethodCall,
    ensures
        r.error_safe(error) <==> is_judged(
            r.modules,
            r.by_module,
            strip_calls(error.metadata),
            FunctionSafety::Safe,
        ),
{
    lemma_judged(r, strip_calls(error.metadata), FunctionSafety::Safe);
}

/// A decorator that is called with arguments is safe as such a decorator; any other decorator,
/// and any other callee that is known, is safe as a call.
pub proof fn lemma_known_call_is_safe(r: ResolverView, error: ErrorView)
    requires
        error.kind != ErrorKind::UnknownFunctionCall,
        error.kind != ErrorKind::UnknownMethodCall,
    ensures
        ({
            let name = strip_calls(error.metadata);
            let decorator = error.kind == ErrorKind::UnsafeDecoratorCall || error.kind
                == ErrorKind::UnknownDecoratorCall;
            &&& decorator && error.parameterized_decorator ==> r.error_safe(error)
                == r.decorator_safe(name)
            &&& !(decorator && error.parameterized_decorator) ==> r.error_safe(error)
                == r.call_safe(name)
        }),
{
}

/// A callee that its own module judges other than `Safe` is safe for no kind of error.
pub proof fn lemma_judged_unsafe_is_not_safe(r: ResolverView, error: ErrorView)
    requires
        is_judged(
            r.modules,
            r.by_module,
            strip_calls(error.metadata),
            FunctionSafety::Unsafe,
        ) || is_judged(
            r.modules,
            r.by_module,
            strip_calls(error.metadata),
            FunctionSafety::UnsafeIfImported,
        ),
    ensures
        !r.error_safe(error),
{
    let name = strip_calls(error.metadata);
    lemma_judged(r, name, FunctionSafety::Unsafe);
    lemma_judged(r, name, FunctionSafety::UnsafeIfImported);
}

/// The errors of a module are those that its analysis found; a failed analysis has none.
pub proof fn lemma_errors_of(module: ModuleView)
    ensures
        module.safety matches SafetyView::Analyzed(findings) ==> errors_of(module)
            == findings.errors,
        module.safety is AnalysisError ==> errors_of(module).len() == 0,
{
}

/// Clearing an error more takes it exactly if it hangs on an import and may go; what is kept
/// stays in order.
pub proof fn lemma_kept_one_more(
    errors: Seq<ErrorView>,
    caller: Seq<char>,
    goes: spec_fn(Seq<char>, ErrorView) -> bool,
    error: ErrorView,
)
    ensures
        kept_errors(Seq::empty(), caller, goes).len() == 0,
        kept_errors(errors.push(error), caller, goes) == (if error.kind.hangs_on_import() && goes(
            caller,
            error,
        ) {
            kept_errors(errors, caller, goes)
        } else {
            kept_errors(errors, caller, goes).push(error)
        }),
{
    reveal(Seq::filter);
    assert(errors.push(error).drop_last() =~= errors);
}

/// Clearing changes the errors of a module and nothing else of it.
pub proof fn lemma_clearing_touches_errors(
    module: ModuleView,
    goes: spec_fn(Seq<char>, ErrorView) -> bool,
)
    ensures
        ({
            let after = cleared_module(module, goes);
            &&& after.name == module.name
            &&& after.imports == module.imports
            &&& after.missing_imports == module.missing_imports
            &&& after.ambiguous_imports == module.ambiguous_imports
            &&& after.side_effect_imports == module.side_effect_imports
            &&& after.function_safety == module.function_safety
            &&& after.mutation_candidates == module.mutation_candidates
            &&& module.safety is AnalysisError ==> after.safety == module.safety
            &&& module.safety matches SafetyView::Analyzed(before) ==> {
                &&& after.safety matches SafetyView::Analyzed(findings)
                &&& findings.overrides == before.overrides
                &&& findings.implicit_imports == before.implicit_imports
                &&& findings.errors == kept_errors(before.errors, module.name, goes)
            }
        }),
{
}

/// Clearing keeps an error unless it hangs on an import and may go.
pub proof fn lemma_cleared_error(
    module: ModuleView,
    goes: spec_fn(Seq<char>, ErrorView) -> bool,
    error: ErrorView,
)
    ensures
        has_error(cleared_module(module, goes), error) <==> has_error(module, error) && !(
        error.kind.hangs_on_import() && goes(module.name, error)),
{
    if let SafetyView::Analyzed(findings) = module.safety {
        let pred = |error: ErrorView| !(error.kind.hangs_on_import() && goes(module.name, error));
        let kept = kept_errors(findings.errors, module.name, goes);
        assert(kept == findings.errors.filter(pred));
        if findings.errors.contains(error) && pred(error) {
            let i = findings.errors.index_of(error);
            assert(findings.errors[i] == error);
            findings.errors.lemma_filter_contains(pred, i);
        }
        if kept.contains(error) {
            let i = kept.index_of(error);
            assert(kept[i] == error);
            findings.errors.lemma_filter_pred(pred, i);
            findings.errors.lemma_filter_contains_rev(pred, error);
        }
    }
}

/// Clearing modules by a test takes from each, in its place, the errors that hang on an import
/// and that the test admits, and changes nothing else.
pub proof fn lemma_cleared_by_test<F: Fn(&ModuleName, &CachedError) -> bool>(
    f: F,
    goes: spec_fn(Seq<char>, ErrorView) -> bool,
    before: Seq<CachedModule>,
    after: Seq<CachedModule>,
    i: int,
    error: ErrorView,
)
    requires
        forall|caller: &ModuleName, error: &CachedError, answer: bool| #[trigger]
            call_ensures(f, (caller, error), answer) ==> answer == goes(caller@, error@),
        are_modules_cleared(f, before, after),
        0 <= i < before.len(),
    ensures
        after.len() == before.len(),
        has_error(after[i]@, error) <==> has_error(before[i]@, error) && !(
        error.kind.hangs_on_import() && goes(before[i].name@, error)),
        after[i]@ == (ModuleView { safety: after[i]@.safety, ..before[i]@ }),
        before[i]@.safety is AnalysisError ==> after[i]@.safety == before[i]@.safety,
        before[i]@.safety matches SafetyView::Analyzed(had) ==> {
            &&& after[i]@.safety matches SafetyView::Analyzed(has)
            &&& has.overrides == had.overrides
            &&& has.implicit_imports == had.implicit_imports
            &&& is_picked_from(has.errors, had.errors)
        },
{
    assert(is_module_cleared(f, before[i], after[i]));
    lemma_module_cleared(f, goes, before[i], after[i]);
    lemma_cleared_error(before[i]@, goes, error);
    if let SafetyView::Analyzed(had) = before[i]@.safety {
        lemma_kept_are_picked(had.errors, before[i].name@, goes);
    }
}

/// Whether the resolution found that a function could be promoted, or a candidate safe.
pub open spec fn found_evidence(outcome: OutcomeView) -> bool {
    outcome.resolved_to_safe || exists|name: Seq<char>| #[trigger] outcome.promoted.contains(name)
}

/// Whether the callee of the error is safe. `vouched` is whether its name is taken to be safe
/// where no known module begins it.
pub open spec fn is_callee_safe(
    names: Set<Seq<char>>,
    verdicts: Map<Seq<char>, Verdicts>,
    bases: Map<Seq<char>, Seq<Seq<char>>>,
    vouched: bool,
    error: ErrorView,
) -> bool {
    let name = strip_calls(error.metadata);
    let decorator = error.kind == ErrorKind::UnsafeDecoratorCall || error.kind
        == ErrorKind::UnknownDecoratorCall;
    if error.kind == ErrorKind::UnknownFunctionCall || error.kind == ErrorKind::UnknownMethodCall {
        is_judged(names, verdicts, name, FunctionSafety::Safe)
    } else if decorator && error.parameterized_decorator {
        ||| exists|module: Seq<char>, local: Seq<char>| #[trigger]
            splits_into(names, name, module, local) && verdicts.contains_key(module) && decorates(
                verdicts[module],
                local,
            )
        ||| is_unbound(names, name) && exists|module: Seq<char>| #[trigger]
            names.contains(module) && verdicts.contains_key(module) && decorates(
                verdicts[module],
                name,
            )
    } else {
        ||| is_judged(names, verdicts, name, FunctionSafety::Safe)
        ||| exists|module: Seq<char>, local: Seq<char>| #[trigger]
            splits_into(names, name, module, local) && !has_verdict(verdicts, module, local)
                && inherits(names, verdicts, bases, module, local, FunctionSafety::Safe)
        ||| is_unbound(names, name) && vouched
    }
}

/// Whether the name is in the index of safe names, which counts only where there is evidence.
pub open spec fn is_in_index(outcome: OutcomeView, name: Seq<char>) -> bool {
    found_evidence(outcome) && outcome.globally_safe.contains(name)
}

/// Whether some known module has the name as that of a safe function.
pub open spec fn some_module_vouches(
    names: Set<Seq<char>>,
    verdicts: Map<Seq<char>, Verdicts>,
    name: Seq<char>,
) -> bool {
    exists|module: Seq<char>| #[trigger]
        names.contains(module) && has_own(verdicts, module, name, FunctionSafety::Safe)
}

/// A resolver takes a callee to be safe by the verdicts on it, by those that it inherits, and
/// where no known module begins its name by the index, or without one by any known module.
pub proof fn lemma_callee_safe(r: ResolverView, error: ErrorView)
    requires
        r.class_bases is Some,
    ensures
        r.globally_safe matches Some(index) ==> (r.error_safe(error) <==> is_callee_safe(
            r.modules,
            r.by_module,
            r.class_bases->0,
            index.contains(strip_calls(error.metadata)),
            error,
        )),
        r.globally_safe is None ==> (r.error_safe(error) <==> is_callee_safe(
            r.modules,
            r.by_module,
            r.class_bases->0,
            some_module_vouches(r.modules, r.by_module, strip_calls(error.metadata)),
            error,
        )),
{
    let name = strip_calls(error.metadata);
    let names = r.modules;
    lemma_judged(r, name, FunctionSafety::Safe);
    match split_name(names, name) {
        Some(parts) => {
            let (m, l) = parts;
            lemma_name_is_split(names, name, m, l);
            assert(splits_into(names, name, m, l));
            lemma_safe_call(r, name, m, l);
            lemma_safe_decorator(r, name, m, l);
            assert forall|module: Seq<char>, local: Seq<char>| #[trigger]
                splits_into(names, name, module, local) implies module == m && local == l by {
                lemma_name_is_split(names, name, module, local);
            }
            assert(!is_unbound(names, name));
        },
        None => {
            lemma_name_is_split(names, name, name, name);
            lemma_safe_unbound_call(r, name);
            lemma_safe_decorator(r, name, name, name);
            assert forall|module: Seq<char>, local: Seq<char>| !#[trigger] splits_into(
                names,
                name,
                module,
                local,
            ) by {
                lemma_name_is_split(names, name, module, local);
            }
        },
    }
}

spec fn end_resolver(
    names: Set<Seq<char>>,
    verdicts: Map<Seq<char>, Verdicts>,
    facts: ClassFactsView,
    outcome: OutcomeView,
) -> ResolverView {
    ResolverView {
        modules: names,
        by_module: verdicts,
        globally_safe: Some(
            if outcome.has_evidence() {
                outcome.globally_safe
            } else {
                Set::empty()
            },
        ),
        class_bases: Some(facts.class_bases),
        constructor_callees: Some(facts.constructor_callees),
    }
}

/// Whether an error is one that a completed resolution drops. It hangs on an import, and the
/// constructors that are recorded for the class that it names allow it; or nothing is recorded
/// there, its callee is safe, and there is evidence or the error is one of an unsafe decorator.
pub open spec fn is_dropped(
    names: Set<Seq<char>>,
    verdicts: Map<Seq<char>, Verdicts>,
    outcome: OutcomeView,
    facts: ClassFactsView,
    caller: Seq<char>,
    error: ErrorView,
) -> bool {
    let class = strip_calls(error.metadata);
    error.kind.hangs_on_import() && if may_name_class(error.kind) && has_record(
        facts.constructor_callees,
        class,
    ) {
        may_instantiate(names, verdicts, facts.constructor_callees[class], caller, class)
    } else {
        &&& found_evidence(outcome) || error.kind == ErrorKind::UnsafeDecoratorCall
        &&& is_callee_safe(
            names,
            verdicts,
            facts.class_bases,
            is_in_index(outcome, class),
            error,
        )
    }
}

/// Completing a resolution drops exactly the errors that the recorded constructors or a safe
/// callee clear.
pub proof fn lemma_what_completion_drops(
    modules: Seq<ModuleView>,
    names: Set<Seq<char>>,
    verdicts: Map<Seq<char>, Verdicts>,
    outcome: OutcomeView,
    facts: ClassFactsView,
    i: int,
    error: ErrorView,
)
    requires
        0 <= i < modules.len(),
    ensures
        finalized_modules(modules, names, verdicts, outcome, facts).len() == modules.len(),
        has_error(finalized_modules(modules, names, verdicts, outcome, facts)[i], error)
            <==> has_error(modules[i], error) && !is_dropped(
            names,
            verdicts,
            outcome,
            facts,
            modules[i].name,
            error,
        ),
{
    let r = end_resolver(names, verdicts, facts, outcome);
    let evidence = outcome.has_evidence();
    let goes = goes_at_the_end(r, evidence);
    let admitted = evidence || error.kind == ErrorKind::UnsafeDecoratorCall;
    lemma_evidence(outcome);
    lemma_cleared_error(modules[i], goes, error);
    lemma_record_decides(r, modules[i].name, error, admitted);
    lemma_callee_safe(r, error);
}

/// Completing a resolution drops an unknown method call only if the module that its full name
/// begins with judges it `Safe`.
pub proof fn lemma_unknown_method_call_stays(
    modules: Seq<ModuleView>,
    names: Set<Seq<char>>,
    verdicts: Map<Seq<char>, Verdicts>,
    outcome: OutcomeView,
    facts: ClassFactsView,
    i: int,
    error: ErrorView,
)
    requires
        0 <= i < modules.len(),
        error.kind == ErrorKind::UnknownMethodCall,
        has_error(modules[i], error),
        !is_judged(names, verdicts, strip_calls(error.metadata), FunctionSafety::Safe),
    ensures
        has_error(finalized_modules(modules, names, verdicts, outcome, facts)[i], error),
{
    lemma_what_completion_drops(modules, names, verdicts, outcome, facts, i, error);
}

/// Completing a resolution keeps an error whose callee its module judges other than `Safe`,
/// unless the constructors that are recorded for it say otherwise.
pub proof fn lemma_unsafe_callee_stays(
    modules: Seq<ModuleView>,
    names: Set<Seq<char>>,
    verdicts: Map<Seq<char>, Verdicts>,
    outcome: OutcomeView,
    facts: ClassFactsView,
    i: int,
    error: ErrorView,
    verdict: FunctionSafety,
)
    requires
        0 <= i < modules.len(),
        has_error(modules[i], error),
        verdict != FunctionSafety::Safe,
        is_judged(names, verdicts, strip_calls(error.metadata), verdict),
        !has_record(facts.constructor_callees, strip_calls(error.metadata)),
    ensures
        has_error(finalized_modules(modules, names, verdicts, outcome, facts)[i], error),
{
    let r = end_resolver(names, verdicts, facts, outcome);
    lemma_evidence(outcome);
    lemma_what_completion_drops(modules, names, verdicts, outcome, facts, i, error);
    lemma_judged_unsafe_is_not_safe(r, error);
    lemma_callee_safe(r, error);
}

/// Without evidence, completing a resolution drops an error only by recorded constructors, or if
/// it is one of an unsafe decorator.
pub proof fn lemma_no_evidence_no_clearing(
    modules: Seq<ModuleView>,
    names: Set<Seq<char>>,
    verdicts: Map<Seq<char>, Verdicts>,
    outcome: OutcomeView,
    facts: ClassFactsView,
    i: int,
    error: ErrorView,
)
    requires
        0 <= i < modules.len(),
        has_error(modules[i], error),
        !outcome.resolved_to_safe,
        outcome.promoted.is_empty(),
        error.kind != ErrorKind::UnsafeDecoratorCall,
        !has_record(facts.constructor_callees, strip_calls(error.metadata)),
    ensures
        has_error(finalized_modules(modules, names, verdicts, outcome, facts)[i], error),
{
    lemma_what_completion_drops(modules, names, verdicts, outcome, facts, i, error);
}

/// Completing a resolution changes the errors of the modules and nothing else of them.
pub proof fn lemma_completion_touches_errors(
    modules: Seq<ModuleView>,
    names: Set<Seq<char>>,
    verdicts: Map<Seq<char>, Verdicts>,
    outcome: OutcomeView,
    facts: ClassFactsView,
    i: int,
)
    requires
        0 <= i < modules.len(),
    ensures
        ({
            let before = modules[i];
            let after = finalized_modules(modules, names, verdicts, outcome, facts)[i];
            &&& after.name == before.name
            &&& after.imports == before.imports
            &&& after.missing_imports == before.missing_imports
            &&& after.ambiguous_imports == before.ambiguous_imports
            &&& after.side_effect_imports == before.side_effect_imports
            &&& after.function_safety == before.function_safety
            &&& after.mutation_candidates == before.mutation_candidates
            &&& before.safety is AnalysisError ==> after.safety == before.safety
            &&& before.safety matches SafetyView::Analyzed(had) ==> {
                &&& after.safety matches SafetyView::Analyzed(has)
                &&& has.overrides == had.overrides
                &&& has.implicit_imports == had.implicit_imports
                &&& is_picked_from(has.errors, had.errors)
            }
        }),
{
    let r = end_resolver(names, verdicts, facts, outcome);
    let goes = goes_at_the_end(r, outcome.has_evidence());
    lemma_clearing_touches_errors(modules[i], goes);
    if let SafetyView::Analyzed(had) = modules[i].safety {
        lemma_kept_are_picked(had.errors, modules[i].name, goes);
    }
}

/// Whether the errors are some of `all`, in the same order and as often.
pub open spec fn is_picked_from(errors: Seq<ErrorView>, all: Seq<ErrorView>) -> bool {
    exists|pred: spec_fn(ErrorView) -> bool| errors == #[trigger] all.filter(pred)
}

/// What clearing keeps is picked from the errors.
pub proof fn lemma_kept_are_picked(
    errors: Seq<ErrorView>,
    caller: Seq<char>,
    goes: spec_fn(Seq<char>, ErrorView) -> bool,
)
    ensures
        is_picked_from(kept_errors(errors, caller, goes), errors),
{
    let pred = |error: ErrorView| !(error.kind.hangs_on_import() && goes(caller, error));
    assert(kept_errors(errors, caller, goes) == errors.filter(pred));
}

} // verus!
