//! Laws of carrying verdicts along re-exports.
use vstd::prelude::*;

use crate::artifact::CacheView;
use crate::artifact::ModuleView;
use crate::artifact::ReExportView;
use crate::laws::settling::is_last_of_name;
use crate::propagate::ends;
use crate::propagate::feeds;
use crate::propagate::is_held;
use crate::propagate::is_inherited;
use crate::propagate::is_propagated;
use crate::propagate::is_route;
use crate::propagate::lemma_propagation_follows_re_exports;
use crate::propagate::lemma_propagation_loses_nothing;
use crate::propagate::module_slot;
use crate::propagate::reaches;
use crate::propagate::Fact;
use crate::propagate::Node;
use crate::safety::FunctionSafety;
use crate::safety::SafetyFacts;

verus! {

/// Whether `b` is judged, and all that is held against `a` is held against `b`.
pub open spec fn is_as_bad(
    a: Map<Seq<char>, SafetyFacts>,
    x: Seq<char>,
    b: Map<Seq<char>, SafetyFacts>,
    y: Seq<char>,
) -> bool {
    a.contains_key(x) ==> {
        &&& b.contains_key(y)
        &&& a[x].verdict == FunctionSafety::Unsafe ==> b[y].verdict == FunctionSafety::Unsafe
        &&& a[x].verdict != FunctionSafety::Safe ==> b[y].verdict != FunctionSafety::Safe
        &&& forall|concern: Seq<char>| #[trigger]
            a[x].concerns.contains(concern) ==> b[y].concerns.contains(concern)
    }
}

/// Whether the modules in `b` hold at least what those in `a` hold.
pub open spec fn is_above(a: Seq<ModuleView>, b: Seq<ModuleView>) -> bool {
    &&& a.len() == b.len()
    &&& forall|i: int, attr: Seq<char>|
        #![trigger a[i].function_safety.contains_key(attr)]
        #![trigger b[i].function_safety.contains_key(attr)]
        0 <= i < a.len() ==> is_as_bad(a[i].function_safety, attr, b[i].function_safety, attr)
}

/// Whether the re-export `e` goes from the `s`-th to the `t`-th module: the last that has the
/// name that it imports from, and the last that has the name that it exports from.
pub open spec fn goes_between(modules: Seq<ModuleView>, e: ReExportView, s: int, t: int) -> bool {
    is_last_of_name(modules, e.imported_module, s) && is_last_of_name(
        modules,
        e.exported_module,
        t,
    )
}

/// Whether every re-export hands on what is held against the function that it re-exports.
pub open spec fn is_closed(
    named: Seq<ModuleView>,
    re_exports: Seq<ReExportView>,
    modules: Seq<ModuleView>,
) -> bool {
    forall|k: int, s: int, t: int|
        #![trigger goes_between(named, re_exports[k], s, t)]
        0 <= k < re_exports.len() && goes_between(named, re_exports[k], s, t) ==> is_as_bad(
            modules[s].function_safety,
            re_exports[k].imported_attr,
            modules[t].function_safety,
            re_exports[k].exported_attr,
        )
}

/// A module is looked up by its name as the last that has it.
pub proof fn lemma_slot_is_last(modules: Seq<ModuleView>, name: Seq<char>, i: int)
    ensures
        module_slot(modules, name) == Some(i) <==> is_last_of_name(modules, name, i),
    decreases modules.len(),
{
    if modules.len() > 0 {
        let shorter = modules.drop_last();
        let n = shorter.len() as int;
        lemma_slot_is_last(shorter, name, i);
        assert(modules[n] == modules.last());
        if modules.last().name == name {
            if is_last_of_name(modules, name, i) && i < n {
                assert(modules[n].name != name);
            }
        } else {
            if is_last_of_name(modules, name, i) {
                assert(shorter[i] == modules[i]);
                assert forall|j: int| i < j < shorter.len() implies (#[trigger] shorter[j]).name
                    != name by {
                    assert(shorter[j] == modules[j]);
                }
            }
            if is_last_of_name(shorter, name, i) {
                assert(shorter[i] == modules[i]);
                assert forall|j: int| i < j < modules.len() implies (#[trigger] modules[j]).name
                    != name by {
                    if j < n {
                        assert(shorter[j] == modules[j]);
                    }
                }
            }
        }
    }
}

proof fn lemma_as_bad(
    a: Seq<ModuleView>,
    s: int,
    x: Seq<char>,
    b: Seq<ModuleView>,
    t: int,
    y: Seq<char>,
)
    requires
        0 <= s < a.len(),
        0 <= t < b.len(),
    ensures
        is_as_bad(a[s].function_safety, x, b[t].function_safety, y) <==> forall|fact: Fact|
            #[trigger]
            is_held(a, (s, x), fact) ==> is_held(b, (t, y), fact),
{
    let worse = is_as_bad(a[s].function_safety, x, b[t].function_safety, y);
    if worse {
        assert forall|fact: Fact| #[trigger] is_held(a, (s, x), fact) implies is_held(
            b,
            (t, y),
            fact,
        ) by {
            match fact {
                Fact::AtLeast(severity) => {},
                Fact::Concern(concern) => {
                    assert(a[s].function_safety[x].concerns.contains(concern));
                },
            }
        }
    }
    if forall|fact: Fact| #[trigger] is_held(a, (s, x), fact) ==> is_held(b, (t, y), fact) {
        if a[s].function_safety.contains_key(x) {
            let severity = a[s].function_safety[x].verdict.severity();
            assert(is_held(a, (s, x), Fact::AtLeast(severity)));
            assert(is_held(b, (t, y), Fact::AtLeast(severity)));
            assert forall|concern: Seq<char>| #[trigger]
                a[s].function_safety[x].concerns.contains(
                    concern,
                ) implies b[t].function_safety[y].concerns.contains(concern) by {
                assert(is_held(a, (s, x), Fact::Concern(concern)));
                assert(is_held(b, (t, y), Fact::Concern(concern)));
            }
        }
    }
}

/// Carrying verdicts changes verdicts and nothing else; it takes nothing back.
pub proof fn lemma_carrying_loses_nothing(before: CacheView, after: CacheView)
    requires
        is_propagated(before, after),
    ensures
        is_above(before.modules, after.modules),
        after.re_exports == before.re_exports,
        after.class_bases == before.class_bases,
        after.constructor_callees == before.constructor_callees,
        forall|i: int|
            0 <= i < before.modules.len() ==> {
                let a = before.modules[i];
                let b = #[trigger] after.modules[i];
                &&& b.name == a.name
                &&& b.imports == a.imports
                &&& b.missing_imports == a.missing_imports
                &&& b.ambiguous_imports == a.ambiguous_imports
                &&& b.side_effect_imports == a.side_effect_imports
                &&& b.safety == a.safety
                &&& b.mutation_candidates == a.mutation_candidates
            },
{
    assert forall|i: int, attr: Seq<char>|
        #![trigger before.modules[i].function_safety.contains_key(attr)]
        #![trigger after.modules[i].function_safety.contains_key(attr)]
        0 <= i < before.modules.len() implies is_as_bad(
        before.modules[i].function_safety,
        attr,
        after.modules[i].function_safety,
        attr,
    ) by {
        assert forall|fact: Fact| #[trigger] is_held(
            before.modules,
            (i, attr),
            fact,
        ) implies is_held(after.modules, (i, attr), fact) by {
            lemma_propagation_loses_nothing(before, after, (i, attr), fact);
        }
        lemma_as_bad(before.modules, i, attr, after.modules, i, attr);
    }
}

/// After carrying, every re-exported name has at least what is held against the function that it
/// stands for.
pub proof fn lemma_carrying_follows_re_exports(before: CacheView, after: CacheView)
    requires
        is_propagated(before, after),
    ensures
        is_closed(before.modules, before.re_exports, after.modules),
{
    assert forall|k: int, s: int, t: int|
        #![trigger goes_between(before.modules, before.re_exports[k], s, t)]
        0 <= k < before.re_exports.len() && goes_between(
            before.modules,
            before.re_exports[k],
            s,
            t,
        ) implies is_as_bad(
        after.modules[s].function_safety,
        before.re_exports[k].imported_attr,
        after.modules[t].function_safety,
        before.re_exports[k].exported_attr,
    ) by {
        let e = before.re_exports[k];
        lemma_slot_is_last(before.modules, e.imported_module, s);
        lemma_slot_is_last(before.modules, e.exported_module, t);
        assert forall|fact: Fact| #[trigger] is_held(
            after.modules,
            (s, e.imported_attr),
            fact,
        ) implies is_held(after.modules, (t, e.exported_attr), fact) by {
            lemma_propagation_follows_re_exports(before, after, k, fact);
        }
        lemma_as_bad(after.modules, s, e.imported_attr, after.modules, t, e.exported_attr);
    }
}

proof fn lemma_route_stays_below(
    before: CacheView,
    upper: Seq<ModuleView>,
    path: Seq<Node>,
    origin: Node,
    node: Node,
    fact: Fact,
)
    requires
        is_above(before.modules, upper),
        is_closed(before.modules, before.re_exports, upper),
        is_route(before, path, origin, node),
        is_held(before.modules, origin, fact),
    ensures
        is_held(upper, node, fact),
    decreases path.len(),
{
    if path.len() == 1 {
        let (i, attr) = origin;
        assert(before.modules[i].function_safety.contains_key(attr));
        lemma_as_bad(before.modules, i, attr, upper, i, attr);
        assert(is_held(upper, (i, attr), fact));
    } else {
        let shorter = path.drop_last();
        let n = path.len() as int;
        let from = shorter.last();
        assert(from == path[n - 2]);
        assert(is_route(before, shorter, origin, from)) by {
            assert forall|i: int|
                #![trigger shorter[i]]
                0 <= i < shorter.len() - 1 implies feeds(before, shorter[i], shorter[i + 1]) by {
                assert(path[i] == shorter[i]);
                assert(path[i + 1] == shorter[i + 1]);
            }
        }
        lemma_route_stays_below(before, upper, shorter, origin, from, fact);
        assert(feeds(before, path[n - 2], path[n - 2 + 1]));
        assert(path[n - 1] == node);
        let k = choose|k: int|
            0 <= k < before.re_exports.len() && ends(
                before.modules,
                #[trigger] before.re_exports[k],
            ) == Some((from, node));
        let e = before.re_exports[k];
        lemma_slot_is_last(before.modules, e.imported_module, from.0);
        lemma_slot_is_last(before.modules, e.exported_module, node.0);
        assert(goes_between(before.modules, before.re_exports[k], from.0, node.0));
        lemma_as_bad(upper, from.0, e.imported_attr, upper, node.0, e.exported_attr);
        assert(is_held(upper, (from.0, e.imported_attr), fact));
        assert(is_held(upper, (node.0, e.exported_attr), fact));
    }
}

/// Carrying makes up nothing: whatever holds what was held before, and hands it on along every
/// re-export, holds all that there is after.
pub proof fn lemma_carrying_makes_up_nothing(
    before: CacheView,
    after: CacheView,
    upper: Seq<ModuleView>,
)
    requires
        is_propagated(before, after),
        is_above(before.modules, upper),
        is_closed(before.modules, before.re_exports, upper),
    ensures
        is_above(after.modules, upper),
{
    assert forall|i: int, attr: Seq<char>|
        #![trigger after.modules[i].function_safety.contains_key(attr)]
        #![trigger upper[i].function_safety.contains_key(attr)]
        0 <= i < after.modules.len() implies is_as_bad(
        after.modules[i].function_safety,
        attr,
        upper[i].function_safety,
        attr,
    ) by {
        let node = (i, attr);
        assert forall|fact: Fact| #[trigger] is_held(after.modules, node, fact) implies is_held(
            upper,
            node,
            fact,
        ) by {
            assert(is_inherited(before, node, fact));
            let origin = choose|origin: Node| #[trigger]
                reaches(before, origin, node) && is_held(before.modules, origin, fact);
            let path = choose|path: Seq<Node>| is_route(before, path, origin, node);
            lemma_route_stays_below(before, upper, path, origin, node, fact);
        }
        lemma_as_bad(after.modules, i, attr, upper, i, attr);
    }
}

} // verus!
