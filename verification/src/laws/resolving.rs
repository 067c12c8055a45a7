//! Laws of how a call is resolved to a verdict.
use vstd::prelude::*;

use crate::imports::known_module;
use crate::laws::text::lemma_dotted_parts;
use crate::laws::text::lemma_last_dot_is_last;
use crate::mro::method_order;
use crate::resolver::constructor_names;
use crate::resolver::is_class_like;
use crate::resolver::is_immediate_child;
use crate::resolver::is_safe_decorator_in;
use crate::resolver::module_dot;
use crate::resolver::some_module_decorates;
use crate::resolver::split_name;
use crate::resolver::ResolverView;
use crate::resolver::Verdicts;
use crate::safety::FunctionSafety;
use crate::text::dotted;
use crate::text::last_dot;

verus! {

/// Whether `text` is `module`, a dot and something more.
pub open spec fn begins_with(text: Seq<char>, module: Seq<char>) -> bool {
    &&& module.len() < text.len()
    &&& text.take(module.len() as int) == module
    &&& text[module.len() as int] == '.'
}

/// Whether `text` is a known module, a dot and `local`, and no longer known module begins it.
pub open spec fn splits_into(
    modules: Set<Seq<char>>,
    text: Seq<char>,
    module: Seq<char>,
    local: Seq<char>,
) -> bool {
    &&& modules.contains(module)
    &&& text == module + seq!['.'] + local
    &&& forall|other: Seq<char>| #[trigger]
        modules.contains(other) && begins_with(text, other) ==> other.len() <= module.len()
}

/// Whether no known module begins `text`.
pub open spec fn is_unbound(modules: Set<Seq<char>>, text: Seq<char>) -> bool {
    forall|other: Seq<char>| #[trigger] modules.contains(other) ==> !begins_with(text, other)
}

proof fn lemma_module_dot_is_last(modules: Set<Seq<char>>, text: Seq<char>, n: int)
    requires
        n <= text.len(),
    ensures
        match module_dot(modules, text, n) {
            Some(i) => {
                &&& 0 <= i < n
                &&& text[i] == '.'
                &&& modules.contains(text.take(i))
                &&& forall|j: int|
                    i < j < n && text[j] == '.' ==> !modules.contains(#[trigger] text.take(j))
            },
            None => forall|j: int|
                0 <= j < n && text[j] == '.' ==> !modules.contains(#[trigger] text.take(j)),
        },
    decreases n,
{
    if n > 0 && !(text[n - 1] == '.' && modules.contains(text.take(n - 1))) {
        lemma_module_dot_is_last(modules, text, n - 1);
    }
}

/// A name is split behind the longest known module that begins it; it is not split exactly if
/// there is none.
pub proof fn lemma_name_is_split(
    modules: Set<Seq<char>>,
    text: Seq<char>,
    module: Seq<char>,
    local: Seq<char>,
)
    ensures
        split_name(modules, text) == Some((module, local)) <==> splits_into(
            modules,
            text,
            module,
            local,
        ),
        split_name(modules, text) is None <==> is_unbound(modules, text),
        split_name(modules, text) matches Some(parts) ==> splits_into(
            modules,
            text,
            parts.0,
            parts.1,
        ),
{
    lemma_module_dot_is_last(modules, text, text.len() as int);
    match module_dot(modules, text, text.len() as int) {
        Some(i) => {
            let m = text.take(i);
            let l = text.skip(i + 1);
            assert(text =~= m + seq!['.'] + l);
            assert(begins_with(text, m));
            assert forall|other: Seq<char>| #[trigger]
                modules.contains(other) && begins_with(text, other) implies other.len()
                <= m.len() by {
                assert(text.take(other.len() as int) == other);
            }
            assert(splits_into(modules, text, m, l));
            if splits_into(modules, text, module, local) {
                lemma_dotted_parts(module, local);
                assert(dotted(module, local) == text);
                assert(begins_with(text, module));
                assert(module.len() == m.len());
                assert(module == m);
                assert(local == l);
            }
        },
        None => {
            assert forall|other: Seq<char>| #[trigger] modules.contains(other) implies !begins_with(
                text,
                other,
            ) by {
                if begins_with(text, other) {
                    assert(text.take(other.len() as int) == other);
                }
            }
            if splits_into(modules, text, module, local) {
                lemma_dotted_parts(module, local);
                assert(dotted(module, local) == text);
                assert(begins_with(text, module));
            }
        },
    }
}

/// Whether `name` leads to `target`: it is that known module, or a name below it, and no longer
/// known module has it.
pub open spec fn leads_to(modules: Set<Seq<char>>, name: Seq<char>, target: Seq<char>) -> bool {
    &&& modules.contains(target)
    &&& target == name || begins_with(name, target)
    &&& forall|other: Seq<char>| #[trigger]
        modules.contains(other) && (other == name || begins_with(name, other)) ==> other.len()
            <= target.len()
}

/// Whether `name` is no known module and not below one.
pub open spec fn leads_nowhere(modules: Set<Seq<char>>, name: Seq<char>) -> bool {
    forall|other: Seq<char>| #[trigger]
        modules.contains(other) ==> other != name && !begins_with(name, other)
}

/// A name is resolved to the longest known module that it is, or is below.
pub proof fn lemma_name_leads_to(modules: Set<Seq<char>>, name: Seq<char>, target: Seq<char>)
    ensures
        known_module(modules, name) == Some(target) <==> leads_to(modules, name, target),
        known_module(modules, name) is None <==> leads_nowhere(modules, name),
{
    lemma_module_dot_is_last(modules, name, name.len() as int);
    if modules.contains(name) {
        assert(leads_to(modules, name, name));
        if leads_to(modules, name, target) {
            assert(name.len() <= target.len());
        }
    } else {
        match module_dot(modules, name, name.len() as int) {
            Some(i) => {
                let m = name.take(i);
                assert(begins_with(name, m));
                assert forall|other: Seq<char>| #[trigger]
                    modules.contains(other) && (other == name || begins_with(
                        name,
                        other,
                    )) implies other.len() <= m.len() by {
                    assert(name.take(other.len() as int) == other);
                }
                assert(leads_to(modules, name, m));
                if leads_to(modules, name, target) {
                    assert(m.len() <= target.len());
                    assert(target.len() <= m.len());
                    assert(target == m);
                }
            },
            None => {
                assert forall|other: Seq<char>| #[trigger] modules.contains(other) implies other
                    != name && !begins_with(name, other) by {
                    if begins_with(name, other) {
                        assert(name.take(other.len() as int) == other);
                    }
                }
            },
        }
    }
}

/// Whether the module has a verdict of its own on `local`.
pub open spec fn has_verdict(
    by_module: Map<Seq<char>, Verdicts>,
    module: Seq<char>,
    local: Seq<char>,
) -> bool {
    by_module.contains_key(module) && by_module[module].contains_key(local)
}

/// Whether the module's own verdict on `local` is `verdict`.
pub open spec fn has_own(
    by_module: Map<Seq<char>, Verdicts>,
    module: Seq<char>,
    local: Seq<char>,
    verdict: FunctionSafety,
) -> bool {
    has_verdict(by_module, module, local) && by_module[module][local].verdict == verdict
}

/// Whether the function with the full name `name` has the verdict of its module.
pub open spec fn is_judged(
    modules: Set<Seq<char>>,
    by_module: Map<Seq<char>, Verdicts>,
    name: Seq<char>,
    verdict: FunctionSafety,
) -> bool {
    exists|module: Seq<char>, local: Seq<char>| #[trigger]
        splits_into(modules, name, module, local) && has_own(by_module, module, local, verdict)
}

/// Whether the function with the full name `name` has no verdict.
pub open spec fn is_not_judged(
    modules: Set<Seq<char>>,
    by_module: Map<Seq<char>, Verdicts>,
    name: Seq<char>,
) -> bool {
    forall|module: Seq<char>, local: Seq<char>| #[trigger]
        splits_into(modules, name, module, local) ==> !has_verdict(by_module, module, local)
}

/// A module's own verdict is the one that is recorded for it there; a module without a record,
/// and a function without an entry, has none.
pub proof fn lemma_own_verdict(
    r: ResolverView,
    module: Seq<char>,
    local: Seq<char>,
    verdict: FunctionSafety,
)
    ensures
        r.own_verdict(module, local) == Some(verdict) <==> has_own(
            r.by_module,
            module,
            local,
            verdict,
        ),
        r.own_verdict(module, local) is None <==> !has_verdict(r.by_module, module, local),
{
}

/// The verdict on a full name is the own verdict of the longest known module that begins it.
pub proof fn lemma_judged(r: ResolverView, name: Seq<char>, verdict: FunctionSafety)
    ensures
        r.named_verdict(name) == Some(verdict) <==> is_judged(
            r.modules,
            r.by_module,
            name,
            verdict,
        ),
        r.named_verdict(name) is None <==> is_not_judged(r.modules, r.by_module, name),
{
    match split_name(r.modules, name) {
        Some(parts) => {
            lemma_name_is_split(r.modules, name, parts.0, parts.1);
            assert forall|m: Seq<char>, l: Seq<char>| #[trigger]
                splits_into(r.modules, name, m, l) implies m == parts.0 && l == parts.1 by {
                lemma_name_is_split(r.modules, name, m, l);
            }
        },
        None => {
            assert forall|m: Seq<char>, l: Seq<char>| !#[trigger] splits_into(
                r.modules,
                name,
                m,
                l,
            ) by {
                lemma_name_is_split(r.modules, name, m, l);
            }
        },
    }
}

/// Whether the `k`-th class of `order` is the first behind the class itself that judges `method`.
pub open spec fn first_judges(
    modules: Set<Seq<char>>,
    by_module: Map<Seq<char>, Verdicts>,
    order: Seq<Seq<char>>,
    method: Seq<char>,
    from: int,
    k: int,
    verdict: FunctionSafety,
) -> bool {
    &&& from <= k < order.len()
    &&& is_judged(modules, by_module, order[k] + seq!['.'] + method, verdict)
    &&& forall|j: int|
        from <= j < k ==> is_not_judged(
            modules,
            by_module,
            #[trigger] order[j] + seq!['.'] + method,
        )
}

proof fn lemma_first_judges(
    r: ResolverView,
    order: Seq<Seq<char>>,
    method: Seq<char>,
    from: int,
    verdict: FunctionSafety,
)
    requires
        0 <= from,
    ensures
        r.first_verdict(order, method, from) == Some(verdict) <==> exists|k: int|
            first_judges(r.modules, r.by_module, order, method, from, k, verdict),
    decreases order.len() - from,
{
    if from < order.len() {
        let here = dotted(order[from], method);
        lemma_judged(r, here, verdict);
        lemma_first_judges(r, order, method, from + 1, verdict);
        match r.named_verdict(here) {
            Some(found) => {
                lemma_judged(r, here, found);
                if found == verdict {
                    assert(first_judges(r.modules, r.by_module, order, method, from, from, verdict));
                }
                if exists|k: int|
                    first_judges(r.modules, r.by_module, order, method, from, k, verdict) {
                    let k = choose|k: int|
                        first_judges(r.modules, r.by_module, order, method, from, k, verdict);
                    if k > from {
                        assert(is_not_judged(
                            r.modules,
                            r.by_module,
                            order[from] + seq!['.'] + method,
                        ));
                    }
                }
            },
            None => {
                if r.first_verdict(order, method, from + 1) == Some(verdict) {
                    let next = from + 1;
                    let k = choose|k: int|
                        first_judges(r.modules, r.by_module, order, method, next, k, verdict);
                    assert(first_judges(r.modules, r.by_module, order, method, from, k, verdict));
                }
                if exists|k: int|
                    first_judges(r.modules, r.by_module, order, method, from, k, verdict) {
                    let k = choose|k: int|
                        first_judges(r.modules, r.by_module, order, method, from, k, verdict);
                    assert(k != from);
                    assert(first_judges(
                        r.modules,
                        r.by_module,
                        order,
                        method,
                        from + 1,
                        k,
                        verdict,
                    ));
                }
            },
        }
    }
}

/// Whether a method `local` of a class of `module` inherits `verdict`: the part before its last
/// dot is the class, and the first class behind it in its method order that judges the method
/// says so.
pub open spec fn inherits(
    modules: Set<Seq<char>>,
    by_module: Map<Seq<char>, Verdicts>,
    bases: Map<Seq<char>, Seq<Seq<char>>>,
    module: Seq<char>,
    local: Seq<char>,
    verdict: FunctionSafety,
) -> bool {
    exists|class: Seq<char>, method: Seq<char>, k: int|
        {
            &&& local == class + seq!['.'] + method
            &&& !method.contains('.')
            &&& #[trigger] first_judges(
                modules,
                by_module,
                method_order(bases, module + seq!['.'] + class),
                method,
                1,
                k,
                verdict,
            )
        }
}

/// A method without a verdict of its own has the one of the first class, behind its own in the
/// method order, that has one; a resolver without base classes knows none.
pub proof fn lemma_inherited(
    r: ResolverView,
    module: Seq<char>,
    local: Seq<char>,
    verdict: FunctionSafety,
)
    ensures
        r.class_bases matches Some(bases) ==> (r.inherited_verdict(module, local) == Some(verdict)
            <==> inherits(r.modules, r.by_module, bases, module, local, verdict)),
        r.class_bases is None ==> r.inherited_verdict(module, local) is None,
{
    lemma_last_dot_is_last(local, local.len() as int);
    if let Some(bases) = r.class_bases {
        match last_dot(local, local.len() as int) {
            Some(i) => {
                let class = local.take(i);
                let method = local.skip(i + 1);
                let order = method_order(bases, dotted(module, class));
                assert(local =~= class + seq!['.'] + method);
                assert(!method.contains('.')) by {
                    if method.contains('.') {
                        let j = method.index_of('.');
                        assert(method[j] == local[i + 1 + j]);
                    }
                }
                lemma_first_judges(r, order, method, 1, verdict);
                if r.inherited_verdict(module, local) == Some(verdict) {
                    let k = choose|k: int|
                        first_judges(r.modules, r.by_module, order, method, 1, k, verdict);
                    assert(order == method_order(bases, module + seq!['.'] + class));
                    assert(inherits(r.modules, r.by_module, bases, module, local, verdict));
                }
                if inherits(r.modules, r.by_module, bases, module, local, verdict) {
                    let (c, m, k) = choose|c: Seq<char>, m: Seq<char>, k: int|
                        {
                            &&& local == c + seq!['.'] + m
                            &&& !m.contains('.')
                            &&& #[trigger] first_judges(
                                r.modules,
                                r.by_module,
                                method_order(bases, module + seq!['.'] + c),
                                m,
                                1,
                                k,
                                verdict,
                            )
                        };
                    lemma_dotted_parts(c, m);
                    assert(local == dotted(c, m));
                    assert(local[c.len() as int] == '.');
                    if c.len() < i {
                        assert(m[i - c.len() - 1] == local[i]);
                        assert(m.contains('.'));
                    }
                    assert(c.len() == i);
                    assert(c == class && m == method);
                }
            },
            None => {
                if inherits(r.modules, r.by_module, bases, module, local, verdict) {
                    let (c, m, k) = choose|c: Seq<char>, m: Seq<char>, k: int|
                        {
                            &&& local == c + seq!['.'] + m
                            &&& !m.contains('.')
                            &&& #[trigger] first_judges(
                                r.modules,
                                r.by_module,
                                method_order(bases, module + seq!['.'] + c),
                                m,
                                1,
                                k,
                                verdict,
                            )
                        };
                    lemma_dotted_parts(c, m);
                    assert(local[c.len() as int] == '.');
                }
            },
        }
    }
}

/// A call is safe by the own verdict of its module, and by an inherited one only where there is
/// no own verdict.
pub proof fn lemma_safe_call(
    r: ResolverView,
    name: Seq<char>,
    module: Seq<char>,
    local: Seq<char>,
)
    requires
        splits_into(r.modules, name, module, local),
    ensures
        has_own(r.by_module, module, local, FunctionSafety::Safe) ==> r.call_safe(name),
        has_own(r.by_module, module, local, FunctionSafety::Unsafe) || has_own(
            r.by_module,
            module,
            local,
            FunctionSafety::UnsafeIfImported,
        ) ==> !r.call_safe(name),
        !has_verdict(r.by_module, module, local) ==> (r.call_safe(name) <==> (
        r.class_bases matches Some(bases) && inherits(
            r.modules,
            r.by_module,
            bases,
            module,
            local,
            FunctionSafety::Safe,
        ))),
{
    lemma_name_is_split(r.modules, name, module, local);
    lemma_inherited(r, module, local, FunctionSafety::Safe);
}

/// A name without a module is safe by the index of safe names, whatever the modules say; where
/// there is no index, if some known module has it so.
pub proof fn lemma_unqualified_names(r: ResolverView, name: Seq<char>)
    ensures
        r.globally_safe matches Some(index) ==> (r.unqualified_safe(name) <==> index.contains(name)),
        r.globally_safe is None ==> (r.unqualified_safe(name) <==> exists|module: Seq<char>|
            #[trigger]
            r.modules.contains(module) && has_own(
                r.by_module,
                module,
                name,
                FunctionSafety::Safe,
            )),
{
    if r.globally_safe is None {
        if r.unqualified_safe(name) {
            let module = choose|module: Seq<char>| #[trigger]
                r.modules.contains(module) && r.own_verdict(module, name) == Some(
                    FunctionSafety::Safe,
                );
            assert(has_own(r.by_module, module, name, FunctionSafety::Safe));
        }
        if exists|module: Seq<char>| #[trigger]
            r.modules.contains(module) && has_own(
                r.by_module,
                module,
                name,
                FunctionSafety::Safe,
            ) {
            let module = choose|module: Seq<char>| #[trigger]
                r.modules.contains(module) && has_own(
                    r.by_module,
                    module,
                    name,
                    FunctionSafety::Safe,
                );
            assert(r.own_verdict(module, name) == Some(FunctionSafety::Safe));
        }
    }
}

/// A name that no known module begins is safe by the index of safe names, and where there is no
/// index, if some module has it so.
pub proof fn lemma_safe_unbound_call(r: ResolverView, name: Seq<char>)
    requires
        is_unbound(r.modules, name),
    ensures
        r.globally_safe matches Some(index) ==> (r.call_safe(name) <==> index.contains(name)),
        r.globally_safe is None ==> (r.call_safe(name) <==> exists|module: Seq<char>| #[trigger]
            r.modules.contains(module) && has_own(
                r.by_module,
                module,
                name,
                FunctionSafety::Safe,
            )),
{
    lemma_name_is_split(r.modules, name, name, name);
    lemma_unqualified_names(r, name);
}

/// Whether `local` may be called as a decorator with arguments: it is safe, and it is a class
/// with a constructor of its own or all that is defined directly in it is safe.
pub open spec fn decorates(verdicts: Verdicts, local: Seq<char>) -> bool {
    &&& verdicts.contains_key(local)
    &&& verdicts[local].verdict == FunctionSafety::Safe
    &&& verdicts.contains_key(local + ".__init__"@) || verdicts.contains_key(
        local + ".__new__"@,
    ) || forall|inner: Seq<char>|
        !inner.contains('.') && verdicts.contains_key(#[trigger] (local + seq!['.'] + inner))
            ==> verdicts[local + seq!['.'] + inner].verdict == FunctionSafety::Safe
}

/// A decorator with arguments is safe in a module exactly if it may be called so there.
pub proof fn lemma_decorates(verdicts: Verdicts, local: Seq<char>)
    ensures
        is_safe_decorator_in(verdicts, local) <==> decorates(verdicts, local),
{
    reveal_strlit("__init__");
    reveal_strlit("__new__");
    reveal_strlit(".__init__");
    reveal_strlit(".__new__");
    assert(dotted(local, "__init__"@) =~= local + ".__init__"@);
    assert(dotted(local, "__new__"@) =~= local + ".__new__"@);
    let names = constructor_names(local);
    assert(names[0] == local + ".__init__"@);
    assert(names[1] == local + ".__new__"@);
    assert(is_class_like(verdicts, local) <==> verdicts.contains_key(local + ".__init__"@)
        || verdicts.contains_key(local + ".__new__"@)) by {
        if verdicts.contains_key(names[0]) || verdicts.contains_key(names[1]) {
            assert(is_class_like(verdicts, local));
        }
    }
    if is_safe_decorator_in(verdicts, local) && !is_class_like(verdicts, local) {
        assert forall|inner: Seq<char>|
            !inner.contains('.') && verdicts.contains_key(
                #[trigger] (local + seq!['.'] + inner),
            ) implies verdicts[local + seq!['.'] + inner].verdict == FunctionSafety::Safe by {
            let name = dotted(local, inner);
            lemma_dotted_parts(local, inner);
            assert(is_immediate_child(local, name));
        }
    }
    if decorates(verdicts, local) && !is_class_like(verdicts, local) {
        assert forall|name: Seq<char>|
            verdicts.contains_key(name) && is_immediate_child(local, name) implies (
        #[trigger] verdicts[name]).verdict == FunctionSafety::Safe by {
            let inner = name.skip(local.len() as int + 1);
            assert(name =~= local + seq!['.'] + inner);
        }
    }
}

/// Some module has a decorator as safe exactly if one of the known modules with a record may call
/// it so.
pub proof fn lemma_some_module_decorates(
    modules: Set<Seq<char>>,
    by_module: Map<Seq<char>, Verdicts>,
    name: Seq<char>,
)
    ensures
        some_module_decorates(modules, by_module, name) <==> exists|other: Seq<char>| #[trigger]
            modules.contains(other) && by_module.contains_key(other) && decorates(
                by_module[other],
                name,
            ),
{
    if some_module_decorates(modules, by_module, name) {
        let other = choose|other: Seq<char>| #[trigger]
            modules.contains(other) && by_module.contains_key(other) && is_safe_decorator_in(
                by_module[other],
                name,
            );
        lemma_decorates(by_module[other], name);
        assert(decorates(by_module[other], name));
    }
    if exists|other: Seq<char>| #[trigger]
        modules.contains(other) && by_module.contains_key(other) && decorates(
            by_module[other],
            name,
        ) {
        let other = choose|other: Seq<char>| #[trigger]
            modules.contains(other) && by_module.contains_key(other) && decorates(
                by_module[other],
                name,
            );
        lemma_decorates(by_module[other], name);
        assert(is_safe_decorator_in(by_module[other], name));
    }
}

/// A call of a decorator with arguments is judged by its own module, and where no known module
/// begins its name by any known module. No base class and no index decides.
pub proof fn lemma_safe_decorator(
    r: ResolverView,
    name: Seq<char>,
    module: Seq<char>,
    local: Seq<char>,
)
    ensures
        splits_into(r.modules, name, module, local) ==> (r.decorator_safe(name) <==> (
        r.by_module.contains_key(module) && decorates(r.by_module[module], local))),
        is_unbound(r.modules, name) ==> (r.decorator_safe(name) <==> exists|other: Seq<char>|
            #[trigger]
            r.modules.contains(other) && r.by_module.contains_key(other) && decorates(
                r.by_module[other],
                name,
            )),
{
    lemma_name_is_split(r.modules, name, module, local);
    if splits_into(r.modules, name, module, local) {
        lemma_decorates(r.by_module[module], local);
    }
    lemma_some_module_decorates(r.modules, r.by_module, name);
}

} // verus!
