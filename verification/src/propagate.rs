//! Carrying verdicts along re-exports.
use vstd::prelude::*;

use crate::artifact::CachedModule;
use crate::artifact::CachedReExport;
use crate::artifact::CacheView;
use crate::artifact::LibraryCache;
use crate::artifact::ModuleView;
use crate::artifact::ReExportView;
use crate::merge::merge_function_safety_entry_ref;
use crate::names::views;
use crate::names::NameMap;
use crate::safety::FunctionSafety;
use crate::safety::FunctionSafetyInfo;
use crate::safety::SafetyFacts;

verus! {

/// A function, by the position of its module and its name there.
pub type Node = (int, Seq<char>);

/// Something that a verdict holds against a function.
pub enum Fact {
    /// The function has a verdict at least this severe.
    AtLeast(int),
    /// The verdict rests on this concern.
    Concern(Seq<char>),
}

/// The position of the last module named `name`.
pub open spec fn module_slot(modules: Seq<ModuleView>, name: Seq<char>) -> Option<int>
    decreases modules.len(),
{
    if modules.len() == 0 {
        None
    } else if modules.last().name == name {
        Some(modules.len() - 1)
    } else {
        module_slot(modules.drop_last(), name)
    }
}

/// Whether `fact` is held against the function at `node`.
pub open spec fn is_held(modules: Seq<ModuleView>, node: Node, fact: Fact) -> bool {
    &&& 0 <= node.0 < modules.len()
    &&& modules[node.0].function_safety.contains_key(node.1)
    &&& match fact {
        Fact::AtLeast(severity) => modules[node.0].function_safety[node.1].verdict.severity()
            >= severity,
        Fact::Concern(concern) => modules[node.0].function_safety[node.1].concerns.contains(
            concern,
        ),
    }
}

/// Where a re-export reads from and what it feeds, if the cache holds both modules.
pub open spec fn ends(modules: Seq<ModuleView>, re_export: ReExportView) -> Option<(Node, Node)> {
    match (
        module_slot(modules, re_export.imported_module),
        module_slot(modules, re_export.exported_module),
    ) {
        (Some(source), Some(target)) => Some(
            ((source, re_export.imported_attr), (target, re_export.exported_attr)),
        ),
        _ => None,
    }
}

/// Whether some re-export reads from `a` and feeds `b`.
pub open spec fn feeds(cache: CacheView, a: Node, b: Node) -> bool {
    exists|k: int|
        0 <= k < cache.re_exports.len() && ends(
            cache.modules,
            #[trigger] cache.re_exports[k],
        ) == Some((a, b))
}

/// Whether `path` leads from `a` to `b`, each node feeding the next.
pub open spec fn is_route(cache: CacheView, path: Seq<Node>, a: Node, b: Node) -> bool {
    &&& path.len() > 0
    &&& path[0] == a
    &&& path.last() == b
    &&& forall|i: int|
        #![trigger path[i]]
        0 <= i < path.len() - 1 ==> feeds(cache, path[i], path[i + 1])
}

/// Whether `b` is `a`, or is fed by it along some number of re-exports.
pub open spec fn reaches(cache: CacheView, a: Node, b: Node) -> bool {
    exists|path: Seq<Node>| is_route(cache, path, a, b)
}

/// Whether some function that reaches `node` has `fact` held against it.
pub open spec fn is_inherited(cache: CacheView, node: Node, fact: Fact) -> bool {
    exists|origin: Node| #[trigger]
        reaches(cache, origin, node) && is_held(cache.modules, origin, fact)
}

/// `module` with other verdicts.
pub open spec fn with_verdicts(
    module: ModuleView,
    function_safety: Map<Seq<char>, SafetyFacts>,
) -> ModuleView {
    ModuleView { function_safety, ..module }
}

/// Whether the two differ in their verdicts at most.
pub open spec fn same_but_verdicts(a: Seq<ModuleView>, b: Seq<ModuleView>) -> bool {
    &&& a.len() == b.len()
    &&& forall|i: int|
        0 <= i < a.len() ==> #[trigger] b[i] == with_verdicts(a[i], b[i].function_safety)
}

/// Whether `after` is `before` with every verdict carried along the re-exports: what is held
/// against a function is what is held against any function that reaches it.
pub open spec fn is_propagated(before: CacheView, after: CacheView) -> bool {
    &&& same_but_verdicts(before.modules, after.modules)
    &&& after.re_exports == before.re_exports
    &&& after.class_bases == before.class_bases
    &&& after.constructor_callees == before.constructor_callees
    &&& forall|node: Node, fact: Fact| #[trigger]
        is_held(after.modules, node, fact) <==> is_inherited(before, node, fact)
}

proof fn lemma_reaches_itself(cache: CacheView, a: Node)
    ensures
        reaches(cache, a, a),
{
    assert(is_route(cache, seq![a], a, a));
}

proof fn lemma_reaches_further(cache: CacheView, a: Node, b: Node, c: Node)
    requires
        reaches(cache, a, b),
        feeds(cache, b, c),
    ensures
        reaches(cache, a, c),
{
    let path = choose|path: Seq<Node>| is_route(cache, path, a, b);
    let longer = path.push(c);
    assert forall|i: int|
        #![trigger longer[i]]
        0 <= i < longer.len() - 1 implies feeds(cache, longer[i], longer[i + 1]) by {
        if i < path.len() - 1 {
            assert(longer[i] == path[i] && longer[i + 1] == path[i + 1]);
        } else {
            assert(longer[i] == path.last());
        }
    }
    assert(is_route(cache, longer, a, c));
}

/// What is closed under feeding is closed under reaching.
proof fn lemma_closed_along(
    cache: CacheView,
    modules: Seq<ModuleView>,
    path: Seq<Node>,
    a: Node,
    b: Node,
    fact: Fact,
)
    requires
        is_route(cache, path, a, b),
        is_held(modules, a, fact),
        forall|m: Node, n: Node| #[trigger]
            feeds(cache, m, n) && is_held(modules, m, fact) ==> is_held(modules, n, fact),
    ensures
        is_held(modules, b, fact),
    decreases path.len(),
{
    if path.len() > 1 {
        let shorter = path.drop_last();
        let c = shorter.last();
        assert forall|i: int|
            #![trigger shorter[i]]
            0 <= i < shorter.len() - 1 implies feeds(cache, shorter[i], shorter[i + 1]) by {
            assert(shorter[i] == path[i] && shorter[i + 1] == path[i + 1]);
        }
        lemma_closed_along(cache, modules, shorter, a, c, fact);
        assert(path[path.len() - 2] == c);
        assert(feeds(cache, c, b));
    }
}

/// The modules after what is held at `source` was joined into `target`.
spec fn after_feeding(modules: Seq<ModuleView>, source: Node, target: Node) -> Seq<ModuleView> {
    let fs = modules[target.0].function_safety;
    let incoming = modules[source.0].function_safety[source.1];
    let joined = if fs.contains_key(target.1) {
        fs[target.1].join(incoming)
    } else {
        incoming
    };
    modules.update(target.0, with_verdicts(modules[target.0], fs.insert(target.1, joined)))
}

proof fn lemma_after_feeding(
    modules: Seq<ModuleView>,
    source: Node,
    target: Node,
    node: Node,
    fact: Fact,
)
    requires
        0 <= source.0 < modules.len(),
        0 <= target.0 < modules.len(),
        modules[source.0].function_safety.contains_key(source.1),
    ensures
        is_held(after_feeding(modules, source, target), node, fact) <==> is_held(
            modules,
            node,
            fact,
        ) || (node == target && is_held(modules, source, fact)),
{
}

/// A change of the target's verdict holds something new against it.
proof fn lemma_something_new(modules: Seq<ModuleView>, source: Node, target: Node) -> (fact: Fact)
    requires
        0 <= source.0 < modules.len(),
        0 <= target.0 < modules.len(),
        modules[source.0].function_safety.contains_key(source.1),
        after_feeding(modules, source, target)[target.0].function_safety
            != modules[target.0].function_safety,
    ensures
        is_held(modules, source, fact),
        !is_held(modules, target, fact),
        fact matches Fact::AtLeast(severity) ==> 0 <= severity <= 2,
{
    let fs = modules[target.0].function_safety;
    let incoming = modules[source.0].function_safety[source.1];
    if !fs.contains_key(target.1) {
        Fact::AtLeast(0)
    } else if fs[target.1].verdict.severity() < incoming.verdict.severity() {
        Fact::AtLeast(incoming.verdict.severity())
    } else {
        let held = fs[target.1];
        let joined = held.join(incoming);
        assert(joined.verdict == held.verdict);
        if incoming.concerns.subset_of(held.concerns) {
            assert(joined.concerns =~= held.concerns);
            assert(fs.insert(target.1, joined) =~= fs);
        }
        let concern = choose|concern: Seq<char>|
            incoming.concerns.contains(concern) && !held.concerns.contains(concern);
        Fact::Concern(concern)
    }
}

/// The concerns in the verdicts on the functions named `keys`.
spec fn concerns_of(fs: Map<Seq<char>, SafetyFacts>, keys: Seq<Seq<char>>) -> Set<Seq<char>>
    decreases keys.len(),
{
    if keys.len() == 0 {
        Set::empty()
    } else {
        concerns_of(fs, keys.drop_last()).union(fs[keys.last()].concerns)
    }
}

proof fn lemma_concerns_of(fs: NameMap<FunctionSafetyInfo>, keys: Seq<Seq<char>>)
    requires
        forall|i: int| 0 <= i < keys.len() ==> fs@.contains_key(#[trigger] keys[i]),
    ensures
        concerns_of(fs@, keys).finite(),
        forall|i: int|
            0 <= i < keys.len() ==> fs@[#[trigger] keys[i]].concerns.subset_of(
                concerns_of(fs@, keys),
            ),
    decreases keys.len(),
{
    if keys.len() > 0 {
        let shorter = keys.drop_last();
        assert forall|i: int| 0 <= i < shorter.len() implies fs@.contains_key(
            #[trigger] shorter[i],
        ) by {
            assert(shorter[i] == keys[i]);
        }
        lemma_concerns_of(fs, shorter);
        assert(keys[keys.len() - 1] == keys.last());
        let info = fs.lemma_value(keys.last());
        info.concerns.lemma_items();
        assert forall|i: int| 0 <= i < keys.len() implies fs@[#[trigger] keys[i]].concerns.subset_of(
            concerns_of(fs@, keys),
        ) by {
            if i < shorter.len() {
                assert(shorter[i] == keys[i]);
            }
        }
    }
}

/// The concerns in all verdicts of the modules.
spec fn all_concerns(modules: Seq<CachedModule>) -> Set<Seq<char>>
    decreases modules.len(),
{
    if modules.len() == 0 {
        Set::empty()
    } else {
        let fs = modules.last().function_safety;
        all_concerns(modules.drop_last()).union(concerns_of(fs@, fs.keys()))
    }
}

proof fn lemma_all_concerns(modules: Seq<CachedModule>)
    ensures
        all_concerns(modules).finite(),
        forall|node: Node, concern: Seq<char>| #[trigger]
            is_held(views(modules), node, Fact::Concern(concern)) ==> all_concerns(
                modules,
            ).contains(concern),
    decreases modules.len(),
{
    if modules.len() > 0 {
        let shorter = modules.drop_last();
        let fs = modules.last().function_safety;
        lemma_all_concerns(shorter);
        fs.lemma_keys();
        assert forall|i: int| 0 <= i < fs.keys().len() implies fs@.contains_key(
            #[trigger] fs.keys()[i],
        ) by {
            assert(fs.keys().contains(fs.keys()[i]));
        }
        lemma_concerns_of(fs, fs.keys());
        assert forall|node: Node, concern: Seq<char>| #[trigger]
            is_held(views(modules), node, Fact::Concern(concern)) implies all_concerns(
            modules,
        ).contains(concern) by {
            if node.0 < shorter.len() {
                assert(views(shorter)[node.0] == views(modules)[node.0]);
                assert(is_held(views(shorter), node, Fact::Concern(concern)));
            } else {
                assert(views(modules)[node.0].function_safety == fs@);
                let i = fs.keys().index_of(node.1);
                assert(fs.keys()[i] == node.1);
                assert(fs@[fs.keys()[i]].concerns.subset_of(concerns_of(fs@, fs.keys())));
            }
        }
    }
}

/// Every fact that a verdict could hold.
spec fn possible_facts(concerns: Set<Seq<char>>) -> Set<Fact> {
    concerns.map(|concern: Seq<char>| Fact::Concern(concern)).insert(Fact::AtLeast(0)).insert(
        Fact::AtLeast(1),
    ).insert(Fact::AtLeast(2))
}

/// The facts that are not held at `node`.
spec fn open_facts(modules: Seq<ModuleView>, node: Node, facts: Set<Fact>) -> Set<Fact> {
    facts.filter(|fact: Fact| !is_held(modules, node, fact))
}

/// How many facts could still come to be held, over the targets of the first `n` edges.
spec fn room(
    modules: Seq<ModuleView>,
    edges: Seq<Option<(Node, Node)>>,
    facts: Set<Fact>,
    n: int,
) -> nat
    decreases n,
{
    if n <= 0 {
        0
    } else {
        room(modules, edges, facts, n - 1) + match edges[n - 1] {
            Some((_, target)) => open_facts(modules, target, facts).len(),
            None => 0,
        }
    }
}

proof fn lemma_room(
    before: Seq<ModuleView>,
    after: Seq<ModuleView>,
    edges: Seq<Option<(Node, Node)>>,
    facts: Set<Fact>,
    n: int,
    k: int,
    fact: Fact,
)
    requires
        0 <= n <= edges.len(),
        facts.finite(),
        forall|node: Node, f: Fact| #[trigger] is_held(before, node, f) ==> is_held(after, node, f),
        0 <= k < edges.len(),
        edges[k] is Some,
        facts.contains(fact),
        !is_held(before, (edges[k]->0).1, fact),
        is_held(after, (edges[k]->0).1, fact),
    ensures
        room(after, edges, facts, n) <= room(before, edges, facts, n),
        k < n ==> room(after, edges, facts, n) < room(before, edges, facts, n),
    decreases n,
{
    if n > 0 {
        lemma_room(before, after, edges, facts, n - 1, k, fact);
        if let Some((_, target)) = edges[n - 1] {
            let left = open_facts(after, target, facts);
            let was = open_facts(before, target, facts);
            assert(was.subset_of(facts));
            vstd::set_lib::lemma_len_subset(was, facts);
            assert(left.subset_of(was));
            vstd::set_lib::lemma_len_subset(left, was);
            if n - 1 == k {
                left.lemma_subset_not_in_lt(was, fact);
            }
        }
    }
}

/// The edges of a cache.
spec fn edge_ends(modules: Seq<ModuleView>, re_exports: Seq<ReExportView>) -> Seq<
    Option<(Node, Node)>,
> {
    Seq::new(re_exports.len(), |k: int| ends(modules, re_exports[k]))
}

proof fn lemma_slot(modules: Seq<ModuleView>, name: Seq<char>)
    ensures
        module_slot(modules, name) matches Some(i) ==> 0 <= i < modules.len() && modules[i].name
            == name,
    decreases modules.len(),
{
    if modules.len() > 0 {
        lemma_slot(modules.drop_last(), name);
    }
}

/// The position of each module, the last one where a name recurs.
fn index_modules(modules: &Vec<CachedModule>) -> (index: NameMap<usize>)
    ensures
        forall|name: Seq<char>| #[trigger]
            index@.contains_key(name) <==> module_slot(views(modules@), name) is Some,
        forall|name: Seq<char>| #[trigger]
            index@.contains_key(name) ==> Some(index@[name] as int) == module_slot(
                views(modules@),
                name,
            ),
{
    let ghost all = views(modules@);
    let mut index: NameMap<usize> = NameMap::new();
    for i in 0..modules.len()
        invariant
            all == views(modules@),
            forall|name: Seq<char>| #[trigger]
                index@.contains_key(name) <==> module_slot(all.take(i as int), name) is Some,
            forall|name: Seq<char>| #[trigger]
                index@.contains_key(name) ==> Some(index@[name] as int) == module_slot(
                    all.take(i as int),
                    name,
                ),
    {
        index.insert(modules[i].name.to_text(), i);
        proof {
            assert(all.take(i + 1).drop_last() =~= all.take(i as int));
            assert(all.take(i + 1).last() == all[i as int]);
        }
    }
    assert(all.take(all.len() as int) =~= all);
    index
}

/// Positions of edges.
struct EdgeList {
    edges: Vec<usize>,
}

impl View for EdgeList {
    type V = Seq<usize>;

    closed spec fn view(&self) -> Seq<usize> {
        self.edges@
    }
}

/// Whether `readers` lists edge `k` under the function that it reads from.
spec fn is_listed(readers: Seq<NameMap<EdgeList>>, source: Node, k: int) -> bool {
    &&& 0 <= source.0 < readers.len()
    &&& readers[source.0]@.contains_key(source.1)
    &&& exists|j: int|
        0 <= j < readers[source.0]@[source.1].len() && #[trigger] readers[source.0]@[source.1][j]
            == k
}

/// Lists edge `k` under the function that it reads from.
fn list_reader(readers: &mut Vec<NameMap<EdgeList>>, source: usize, attr: &String, k: usize)
    requires
        source < old(readers)@.len(),
    ensures
        final(readers)@.len() == old(readers)@.len(),
        is_listed(final(readers)@, (source as int, attr@), k as int),
        forall|node: Node, j: int| #[trigger]
            is_listed(old(readers)@, node, j) ==> is_listed(final(readers)@, node, j),
        forall|node: Node, j: int| #[trigger]
            is_listed(final(readers)@, node, j) ==> is_listed(old(readers)@, node, j) || j == k,
{
    let ghost before = readers@;
    let mut map: NameMap<EdgeList> = NameMap::new();
    std::mem::swap(&mut readers[source], &mut map);
    let mut list = match map.insert(attr.clone(), EdgeList { edges: Vec::new() }) {
        Some(list) => list,
        None => EdgeList { edges: Vec::new() },
    };
    let ghost was = list@;
    list.edges.push(k);
    let ghost now = list@;
    map.insert(attr.clone(), list);
    std::mem::swap(&mut readers[source], &mut map);
    proof {
        let here: Node = (source as int, attr@);
        assert(readers@[source as int]@ =~= before[source as int]@.insert(attr@, now));
        assert(readers@[here.0]@[here.1][now.len() - 1] == k);
        assert(is_listed(readers@, here, k as int));
        assert forall|node: Node, j: int| #[trigger] is_listed(before, node, j) implies is_listed(
            readers@,
            node,
            j,
        ) by {
            let p = choose|p: int|
                0 <= p < before[node.0]@[node.1].len() && #[trigger] before[node.0]@[node.1][p]
                    == j;
            if node == here {
                assert(now[p] == was[p]);
            }
            assert(readers@[node.0]@[node.1][p] == j);
        }
        assert forall|node: Node, j: int| #[trigger] is_listed(readers@, node, j) implies is_listed(
            before,
            node,
            j,
        ) || j == k by {
            let p = choose|p: int|
                0 <= p < readers@[node.0]@[node.1].len() && #[trigger] readers@[node.0]@[node.1][p]
                    == j;
            if node == here {
                if p < was.len() {
                    assert(now[p] == was[p]);
                    assert(before[node.0]@[node.1][p] == j);
                }
            } else {
                assert(before[node.0]@[node.1][p] == j);
            }
        }
    }
}

/// Where each re-export reads from and what it feeds, and the edges that read from each
/// function.
fn build_edges(modules: &Vec<CachedModule>, re_exports: &Vec<CachedReExport>) -> (r: (
    Vec<Option<(usize, usize)>>,
    Vec<NameMap<EdgeList>>,
))
    ensures
        r.0@.len() == re_exports@.len(),
        forall|k: int|
            0 <= k < r.0@.len() ==> match #[trigger] r.0@[k] {
                Some((source, target)) => {
                    &&& source < modules@.len()
                    &&& target < modules@.len()
                    &&& ends(views(modules@), re_exports@[k]@) == Some(
                        (
                            (source as int, re_exports@[k].imported_attr@),
                            (target as int, re_exports@[k].exported_attr@),
                        ),
                    )
                },
                None => ends(views(modules@), re_exports@[k]@) is None,
            },
        r.1@.len() == modules@.len(),
        forall|k: int|
            0 <= k < re_exports@.len() ==> (ends(
                views(modules@),
                (#[trigger] re_exports@[k])@,
            ) matches Some(edge) ==> is_listed(r.1@, edge.0, k)),
        forall|node: Node, k: int| #[trigger]
            is_listed(r.1@, node, k) ==> 0 <= k < re_exports@.len(),
{
    let index = index_modules(modules);
    let ghost all = views(modules@);
    let mut readers: Vec<NameMap<EdgeList>> = Vec::new();
    for i in 0..modules.len()
        invariant
            readers@.len() == i,
            forall|j: int| 0 <= j < i ==> (#[trigger] readers@[j])@ == Map::<
                Seq<char>,
                Seq<usize>,
            >::empty(),
    {
        readers.push(NameMap::new());
    }
    let mut edges: Vec<Option<(usize, usize)>> = Vec::new();
    for k in 0..re_exports.len()
        invariant
            all == views(modules@),
            forall|name: Seq<char>| #[trigger]
                index@.contains_key(name) <==> module_slot(all, name) is Some,
            forall|name: Seq<char>| #[trigger]
                index@.contains_key(name) ==> Some(index@[name] as int) == module_slot(all, name),
            edges@.len() == k,
            forall|j: int|
                0 <= j < k ==> match #[trigger] edges@[j] {
                    Some((source, target)) => {
                        &&& source < modules@.len()
                        &&& target < modules@.len()
                        &&& ends(all, re_exports@[j]@) == Some(
                            (
                                (source as int, re_exports@[j].imported_attr@),
                                (target as int, re_exports@[j].exported_attr@),
                            ),
                        )
                    },
                    None => ends(all, re_exports@[j]@) is None,
                },
            readers@.len() == modules@.len(),
            forall|j: int|
                0 <= j < k ==> (ends(all, (#[trigger] re_exports@[j])@) matches Some(edge)
                    ==> is_listed(readers@, edge.0, j)),
            forall|node: Node, j: int| #[trigger]
                is_listed(readers@, node, j) ==> 0 <= j < re_exports@.len(),
    {
        let re_export = &re_exports[k];
        proof {
            lemma_slot(all, re_export.imported_module@);
            lemma_slot(all, re_export.exported_module@);
        }
        let edge = match (
            index.get(re_export.imported_module.as_str()),
            index.get(re_export.exported_module.as_str()),
        ) {
            (Some(source), Some(target)) => Some((*source, *target)),
            _ => None,
        };
        if let Some((source, _)) = edge {
            list_reader(&mut readers, source, &re_export.imported_attr, k);
        }
        edges.push(edge);
    }
    (edges, readers)
}

/// Whether everything held is inherited.
#[verifier::opaque]
spec fn is_sound(cache: CacheView, modules: Seq<ModuleView>) -> bool {
    forall|node: Node, fact: Fact| #[trigger]
        is_held(modules, node, fact) ==> is_inherited(cache, node, fact)
}

/// Whether nothing that was held is lost.
#[verifier::opaque]
spec fn is_grown(before: Seq<ModuleView>, after: Seq<ModuleView>) -> bool {
    forall|node: Node, fact: Fact| #[trigger]
        is_held(before, node, fact) ==> is_held(after, node, fact)
}

/// Whether the second node holds whatever the first holds.
spec fn holds_all_of(modules: Seq<ModuleView>, target: Node, source: Node) -> bool {
    forall|fact: Fact| #[trigger]
        is_held(modules, source, fact) ==> is_held(modules, target, fact)
}

/// Whether an edge has nothing left to carry.
spec fn is_settled(modules: Seq<ModuleView>, edge: Option<(Node, Node)>) -> bool {
    match edge {
        Some((source, target)) => holds_all_of(modules, target, source),
        None => true,
    }
}

/// Whether every edge that is not queued is settled.
#[verifier::opaque]
spec fn rest_settled(
    modules: Seq<ModuleView>,
    nodes: Seq<Option<(Node, Node)>>,
    queued: Seq<bool>,
) -> bool {
    forall|k: int|
        0 <= k < nodes.len() && !#[trigger] queued[k] ==> is_settled(modules, nodes[k])
}

/// Whether the worklist holds every edge that is queued, and edges only.
#[verifier::opaque]
spec fn is_queue(queued: Seq<bool>, worklist: Seq<usize>) -> bool {
    &&& queued.len() <= usize::MAX
    &&& forall|p: int| 0 <= p < worklist.len() ==> #[trigger] worklist[p] < queued.len()
    &&& forall|k: int|
        0 <= k < queued.len() && #[trigger] queued[k] ==> worklist.contains(k as usize)
}

/// Whether the concerns of a cache are among `concerns`.
#[verifier::opaque]
spec fn concerns_within(cache: CacheView, concerns: Set<Seq<char>>) -> bool {
    forall|node: Node, concern: Seq<char>| #[trigger]
        is_held(cache.modules, node, Fact::Concern(concern)) ==> concerns.contains(concern)
}

proof fn lemma_queue_popped(queued: Seq<bool>, worklist: Seq<usize>)
    requires
        is_queue(queued, worklist),
        worklist.len() > 0,
    ensures
        worklist.last() < queued.len(),
        is_queue(queued.update(worklist.last() as int, false), worklist.drop_last()),
{
    reveal(is_queue);
    let i = worklist.last();
    assert(worklist[worklist.len() - 1] == i);
    let after = queued.update(i as int, false);
    let rest = worklist.drop_last();
    assert forall|k: int| 0 <= k < after.len() && #[trigger] after[k] implies rest.contains(
        k as usize,
    ) by {
        assert(queued[k]);
        let p = worklist.index_of(k as usize);
        assert(worklist[p] == k as usize);
        assert(rest[p] == k as usize);
    }
    assert forall|p: int| 0 <= p < rest.len() implies #[trigger] rest[p] < after.len() by {
        assert(worklist[p] == rest[p]);
    }
}

proof fn lemma_queue_pushed(queued: Seq<bool>, worklist: Seq<usize>, k: usize)
    requires
        is_queue(queued, worklist),
        k < queued.len(),
    ensures
        is_queue(queued.update(k as int, true), worklist.push(k)),
{
    reveal(is_queue);
    let after = queued.update(k as int, true);
    let longer = worklist.push(k);
    assert forall|m: int| 0 <= m < after.len() && #[trigger] after[m] implies longer.contains(
        m as usize,
    ) by {
        if m == k {
            assert(longer[worklist.len() as int] == k);
        } else {
            assert(queued[m]);
            let p = worklist.index_of(m as usize);
            assert(worklist[p] == m as usize);
            assert(longer[p] == m as usize);
        }
    }
    assert forall|p: int| 0 <= p < longer.len() implies #[trigger] longer[p] < after.len() by {
        if p < worklist.len() {
            assert(worklist[p] == longer[p]);
        }
    }
}

/// Queues every edge of `edges` that is not queued yet.
fn requeue(edges: &Vec<usize>, queued: &mut Vec<bool>, worklist: &mut Vec<usize>)
    requires
        is_queue(old(queued)@, old(worklist)@),
        forall|p: int| 0 <= p < edges@.len() ==> #[trigger] edges@[p] < old(queued)@.len(),
    ensures
        is_queue(final(queued)@, final(worklist)@),
        final(queued)@.len() == old(queued)@.len(),
        forall|k: int| 0 <= k < old(queued)@.len() && #[trigger] old(queued)@[k] ==> final(queued)@[k],
        forall|p: int| 0 <= p < edges@.len() ==> final(queued)@[#[trigger] edges@[p] as int],
{
    let ghost before = queued@;
    for j in 0..edges.len()
        invariant
            is_queue(queued@, worklist@),
            queued@.len() == before.len(),
            before == old(queued)@,
            forall|p: int| 0 <= p < edges@.len() ==> #[trigger] edges@[p] < before.len(),
            forall|k: int| 0 <= k < before.len() && #[trigger] before[k] ==> queued@[k],
            forall|p: int| 0 <= p < j ==> queued@[#[trigger] edges@[p] as int],
    {
        let k = edges[j];
        if !queued[k] {
            proof {
                lemma_queue_pushed(queued@, worklist@, k);
            }
            queued[k] = true;
            worklist.push(k);
        }
    }
}

/// Joins the verdict that an edge reads into the one that it feeds; tells whether that one
/// changed.
fn feed(
    modules: &mut Vec<CachedModule>,
    source: usize,
    imported_attr: &String,
    target: usize,
    exported_attr: &String,
) -> (changed: bool)
    requires
        source < old(modules)@.len(),
        target < old(modules)@.len(),
    ensures
        final(modules)@.len() == old(modules)@.len(),
        ({
            let from: Node = (source as int, imported_attr@);
            let to: Node = (target as int, exported_attr@);
            let before = views(old(modules)@);
            let after = views(final(modules)@);
            if before[from.0].function_safety.contains_key(from.1) {
                &&& after == after_feeding(before, from, to)
                &&& changed == (after[to.0].function_safety != before[to.0].function_safety)
            } else {
                after == before && !changed
            }
        }),
{
    let ghost before = views(modules@);
    let incoming = match modules[source].function_safety.get(imported_attr.as_str()) {
        Some(info) => info.clone(),
        None => {
            return false;
        },
    };
    let changed = merge_function_safety_entry_ref(
        &mut modules[target].function_safety,
        exported_attr.as_str(),
        &incoming,
    );
    proof {
        let from: Node = (source as int, imported_attr@);
        let to: Node = (target as int, exported_attr@);
        assert(views(modules@) =~= after_feeding(before, from, to));
    }
    changed
}

/// What feeding along an edge does to what is known of the whole.
proof fn lemma_fed(
    cache: CacheView,
    before: Seq<ModuleView>,
    nodes: Seq<Option<(Node, Node)>>,
    concerns: Set<Seq<char>>,
    i: int,
)
    requires
        nodes == edge_ends(cache.modules, cache.re_exports),
        0 <= i < nodes.len(),
        nodes[i] is Some,
        same_but_verdicts(cache.modules, before),
        is_sound(cache, before),
        is_grown(cache.modules, before),
        concerns.finite(),
        concerns_within(cache, concerns),
        ({
            let (from, to) = nodes[i]->0;
            &&& 0 <= from.0 < before.len()
            &&& 0 <= to.0 < before.len()
            &&& before[from.0].function_safety.contains_key(from.1)
        }),
    ensures
        ({
            let (from, to) = nodes[i]->0;
            let after = after_feeding(before, from, to);
            let facts = possible_facts(concerns);
            let n = nodes.len() as int;
            &&& same_but_verdicts(cache.modules, after)
            &&& is_sound(cache, after)
            &&& is_grown(cache.modules, after)
            &&& after[to.0].function_safety != before[to.0].function_safety ==> room(
                after,
                nodes,
                facts,
                n,
            ) < room(before, nodes, facts, n)
            &&& after[to.0].function_safety == before[to.0].function_safety ==> after == before
        }),
{
    reveal(is_sound);
    reveal(is_grown);
    reveal(concerns_within);
    let (from, to) = nodes[i]->0;
    let after = after_feeding(before, from, to);
    let facts = possible_facts(concerns);
    assert forall|node: Node, fact: Fact| #[trigger]
        is_held(after, node, fact) <==> is_held(before, node, fact) || (node == to && is_held(
            before,
            from,
            fact,
        )) by {
        lemma_after_feeding(before, from, to, node, fact);
    }
    assert(feeds(cache, from, to)) by {
        assert(ends(cache.modules, cache.re_exports[i]) == Some((from, to)));
    }
    assert forall|node: Node, fact: Fact| #[trigger]
        is_held(after, node, fact) implies is_inherited(cache, node, fact) by {
        if !is_held(before, node, fact) {
            assert(is_inherited(cache, from, fact));
            let origin = choose|origin: Node| #[trigger]
                reaches(cache, origin, from) && is_held(cache.modules, origin, fact);
            lemma_reaches_further(cache, origin, from, to);
        }
    }
    if after[to.0].function_safety != before[to.0].function_safety {
        let fact = lemma_something_new(before, from, to);
        let wrap = |concern: Seq<char>| Fact::Concern(concern);
        concerns.lemma_map_finite(wrap);
        if let Fact::Concern(concern) = fact {
            assert(is_inherited(cache, from, fact));
            let origin = choose|origin: Node| #[trigger]
                reaches(cache, origin, from) && is_held(cache.modules, origin, fact);
            assert(is_held(cache.modules, origin, Fact::Concern(concern)));
            assert(concerns.contains(concern));
            assert(concerns.map(wrap).contains(wrap(concern)));
        } else if let Fact::AtLeast(severity) = fact {
            assert(severity == 0 || severity == 1 || severity == 2);
        }
        assert(facts.contains(fact));
        assert(is_held(after, to, fact));
        lemma_room(before, after, nodes, facts, nodes.len() as int, i, fact);
    } else {
        assert(after =~= before);
    }
}

/// After an edge has fed its target, what is not queued is settled, if the readers of a
/// changed target are queued.
proof fn lemma_settled(
    before: Seq<ModuleView>,
    nodes: Seq<Option<(Node, Node)>>,
    queued: Seq<bool>,
    i: int,
    requeued: Seq<bool>,
)
    requires
        queued.len() == nodes.len(),
        requeued.len() == nodes.len(),
        rest_settled(before, nodes, queued),
        0 <= i < nodes.len(),
        nodes[i] is Some,
        ({
            let (from, to) = nodes[i]->0;
            &&& 0 <= from.0 < before.len()
            &&& 0 <= to.0 < before.len()
            &&& before[from.0].function_safety.contains_key(from.1)
            &&& after_feeding(before, from, to) != before ==> forall|k: int|
                0 <= k < nodes.len() && #[trigger] nodes[k] is Some && (nodes[k]->0).0 == to
                    ==> requeued[k]
        }),
        forall|k: int| 0 <= k < nodes.len() && #[trigger] queued[k] && k != i ==> requeued[k],
    ensures
        rest_settled(
            after_feeding(before, (nodes[i]->0).0, (nodes[i]->0).1),
            nodes,
            requeued,
        ),
{
    reveal(rest_settled);
    let (from, to) = nodes[i]->0;
    let after = after_feeding(before, from, to);
    assert forall|k: int| 0 <= k < nodes.len() && !#[trigger] requeued[k] implies is_settled(
        after,
        nodes[k],
    ) by {
        if let Some((source, target)) = nodes[k] {
            assert forall|fact: Fact| #[trigger] is_held(after, source, fact) implies is_held(
                after,
                target,
                fact,
            ) by {
                lemma_after_feeding(before, from, to, source, fact);
                lemma_after_feeding(before, from, to, target, fact);
                if after != before {
                    assert(source != to);
                }
                assert(is_held(before, source, fact));
                if k != i {
                    assert(!queued[k]);
                    assert(is_settled(before, nodes[k]));
                }
            }
        }
    }
}

/// Once nothing is queued, everything inherited is held.
proof fn lemma_all_settled(
    cache: CacheView,
    modules: Seq<ModuleView>,
    nodes: Seq<Option<(Node, Node)>>,
    queued: Seq<bool>,
)
    requires
        nodes == edge_ends(cache.modules, cache.re_exports),
        queued.len() == nodes.len(),
        is_queue(queued, Seq::empty()),
        rest_settled(modules, nodes, queued),
        is_sound(cache, modules),
        is_grown(cache.modules, modules),
    ensures
        forall|node: Node, fact: Fact| #[trigger]
            is_held(modules, node, fact) <==> is_inherited(cache, node, fact),
{
    reveal(is_queue);
    reveal(rest_settled);
    reveal(is_sound);
    reveal(is_grown);
    assert forall|node: Node, fact: Fact| is_inherited(cache, node, fact) implies #[trigger] is_held(
        modules,
        node,
        fact,
    ) by {
        let origin = choose|origin: Node| #[trigger]
            reaches(cache, origin, node) && is_held(cache.modules, origin, fact);
        let path = choose|path: Seq<Node>| is_route(cache, path, origin, node);
        assert(is_held(modules, origin, fact));
        assert forall|a: Node, b: Node| #[trigger]
            feeds(cache, a, b) && is_held(modules, a, fact) implies is_held(modules, b, fact) by {
            let k = choose|k: int|
                0 <= k < cache.re_exports.len() && ends(
                    cache.modules,
                    #[trigger] cache.re_exports[k],
                ) == Some((a, b));
            assert(nodes[k] == Some((a, b)));
            assert(!queued[k]) by {
                if queued[k] {
                    assert(Seq::<usize>::empty().contains(k as usize));
                }
            }
            assert(is_settled(modules, nodes[k]));
            assert(holds_all_of(modules, b, a));
        }
        lemma_closed_along(cache, modules, path, origin, node, fact);
    }
}

/// Whether the edges and their readers are those of a cache.
spec fn is_edge_table(
    cache: CacheView,
    nodes: Seq<Option<(Node, Node)>>,
    re_exports: Seq<CachedReExport>,
    edges: Seq<Option<(usize, usize)>>,
    readers: Seq<NameMap<EdgeList>>,
) -> bool {
    &&& cache.re_exports == views(re_exports)
    &&& nodes == edge_ends(cache.modules, cache.re_exports)
    &&& edges.len() == nodes.len()
    &&& readers.len() == cache.modules.len()
    &&& forall|k: int|
        0 <= k < nodes.len() ==> match #[trigger] edges[k] {
            Some((source, target)) => {
                &&& source < cache.modules.len()
                &&& target < cache.modules.len()
                &&& nodes[k] == Some(
                    (
                        (source as int, re_exports[k].imported_attr@),
                        (target as int, re_exports[k].exported_attr@),
                    ),
                )
            },
            None => nodes[k] is None,
        }
    &&& forall|k: int|
        0 <= k < nodes.len() ==> (#[trigger] nodes[k] matches Some(edge) ==> is_listed(
            readers,
            edge.0,
            k,
        ))
    &&& forall|node: Node, k: int| #[trigger] is_listed(readers, node, k) ==> 0 <= k < nodes.len()
}

/// Queues the edges that read from the function `attr` of module `target`.
fn requeue_readers(
    readers: &Vec<NameMap<EdgeList>>,
    target: usize,
    attr: &String,
    queued: &mut Vec<bool>,
    worklist: &mut Vec<usize>,
)
    requires
        is_queue(old(queued)@, old(worklist)@),
        target < readers@.len(),
        forall|node: Node, k: int| #[trigger]
            is_listed(readers@, node, k) ==> 0 <= k < old(queued)@.len(),
    ensures
        is_queue(final(queued)@, final(worklist)@),
        final(queued)@.len() == old(queued)@.len(),
        forall|k: int| 0 <= k < old(queued)@.len() && #[trigger] old(queued)@[k] ==> final(queued)@[k],
        forall|k: int| #[trigger]
            is_listed(readers@, (target as int, attr@), k) ==> final(queued)@[k],
{
    let ghost here: Node = (target as int, attr@);
    if let Some(list) = readers[target].get(attr.as_str()) {
        proof {
            assert forall|p: int| 0 <= p < list.edges@.len() implies #[trigger] list.edges@[p]
                < queued@.len() by {
                assert(readers@[here.0]@[here.1][p] == list.edges@[p]);
                assert(is_listed(readers@, here, list.edges@[p] as int));
            }
        }
        requeue(&list.edges, queued, worklist);
        proof {
            assert forall|k: int| #[trigger] is_listed(readers@, here, k) implies queued@[k] by {
                let p = choose|p: int|
                    0 <= p < readers@[here.0]@[here.1].len() && #[trigger] readers@[here.0]@[here.1][p]
                        == k;
                assert(list.edges@[p] == k);
            }
        }
    }
}

impl LibraryCache {
    /// Carries the verdicts along the re-exports: where a module offers a function of
    /// another as its own, what is held against the function is held against it there too.
    pub fn propagate_re_export_safety(&mut self)
        ensures
            is_propagated(old(self)@, final(self)@),
    {
        let ghost cache = self@;
        let ghost start = self.modules@;
        let ghost concerns = all_concerns(start);
        let ghost nodes = edge_ends(cache.modules, cache.re_exports);
        let mut modules: Vec<CachedModule> = Vec::new();
        std::mem::swap(&mut self.modules, &mut modules);
        let re_exports = &self.exports.re_exports;
        let (edges, readers) = build_edges(&modules, re_exports);
        proof {
            lemma_all_concerns(start);
            reveal(concerns_within);
            assert forall|k: int| 0 <= k < nodes.len() implies (#[trigger] nodes[k] matches Some(
                edge,
            ) ==> is_listed(readers@, edge.0, k)) by {
                assert(nodes[k] == ends(cache.modules, re_exports@[k]@));
            }
            assert(is_edge_table(cache, nodes, re_exports@, edges@, readers@));
        }
        let n = edges.len();
        let mut queued: Vec<bool> = Vec::new();
        let mut worklist: Vec<usize> = Vec::new();
        for k in 0..n
            invariant
                queued@.len() == k,
                worklist@.len() == k,
                forall|j: int| 0 <= j < k ==> #[trigger] worklist@[j] == j,
                forall|j: int| 0 <= j < k ==> #[trigger] queued@[j],
        {
            queued.push(true);
            worklist.push(k);
        }
        proof {
            reveal(is_sound);
            reveal(is_grown);
            reveal(is_queue);
            reveal(rest_settled);
            assert forall|node: Node, fact: Fact| #[trigger]
                is_held(views(modules@), node, fact) implies is_inherited(cache, node, fact) by {
                lemma_reaches_itself(cache, node);
            }
            assert forall|k: int|
                0 <= k < queued@.len() && #[trigger] queued@[k] implies worklist@.contains(
                k as usize,
            ) by {
                assert(worklist@[k] == k as usize);
            }
        }
        while worklist.len() > 0
            invariant
                is_edge_table(cache, nodes, re_exports@, edges@, readers@),
                queued@.len() == nodes.len(),
                modules@.len() == cache.modules.len(),
                concerns.finite(),
                concerns_within(cache, concerns),
                same_but_verdicts(cache.modules, views(modules@)),
                is_sound(cache, views(modules@)),
                is_grown(cache.modules, views(modules@)),
                is_queue(queued@, worklist@),
                rest_settled(views(modules@), nodes, queued@),
            decreases
                    room(views(modules@), nodes, possible_facts(concerns), nodes.len() as int),
                    worklist@.len(),
        {
            let ghost before = views(modules@);
            let ghost queued0 = queued@;
            proof {
                lemma_queue_popped(queued@, worklist@);
            }
            if let Some(i) = worklist.pop() {
                queued[i] = false;
                let ghost queued1 = queued@;
                if let Some((source, target)) = edges[i] {
                    let re_export = &re_exports[i];
                    let changed = feed(
                        &mut modules,
                        source,
                        &re_export.imported_attr,
                        target,
                        &re_export.exported_attr,
                    );
                    let ghost from: Node = (source as int, re_export.imported_attr@);
                    let ghost to: Node = (target as int, re_export.exported_attr@);
                    if changed {
                        requeue_readers(
                            &readers,
                            target,
                            &re_export.exported_attr,
                            &mut queued,
                            &mut worklist,
                        );
                    }
                    proof {
                        assert(nodes[i as int] == Some((from, to)));
                        if before[from.0].function_safety.contains_key(from.1) {
                            lemma_fed(cache, before, nodes, concerns, i as int);
                            assert forall|k: int|
                                0 <= k < nodes.len() && #[trigger] queued0[k] && k
                                    != i implies queued@[k] by {
                                assert(queued1[k]);
                            }
                            assert(after_feeding(before, from, to) != before ==> changed);
                            lemma_settled(before, nodes, queued0, i as int, queued@);
                        } else {
                            reveal(rest_settled);
                            assert(is_settled(before, nodes[i as int]));
                        }
                    }
                } else {
                    proof {
                        reveal(rest_settled);
                        assert(nodes[i as int] is None);
                    }
                }
            }
        }
        proof {
            assert(worklist@ =~= Seq::<usize>::empty());
            lemma_all_settled(cache, views(modules@), nodes, queued@);
        }
        self.modules = modules;
    }
}

/// The cache with every verdict carried along the re-exports.
pub open spec fn propagated(cache: CacheView) -> CacheView {
    choose|after: CacheView| is_propagated(cache, after)
}

spec fn inherited_facts(cache: CacheView, node: Node) -> SafetyFacts {
    SafetyFacts {
        verdict: if is_inherited(cache, node, Fact::AtLeast(2)) {
            FunctionSafety::Unsafe
        } else if is_inherited(cache, node, Fact::AtLeast(1)) {
            FunctionSafety::UnsafeIfImported
        } else {
            FunctionSafety::Safe
        },
        concerns: Set::new(|concern: Seq<char>| is_inherited(cache, node, Fact::Concern(concern))),
    }
}

spec fn with_inherited_facts(cache: CacheView) -> CacheView {
    CacheView {
        modules: Seq::new(
            cache.modules.len(),
            |i: int|
                with_verdicts(
                    cache.modules[i],
                    Map::new(
                        |attr: Seq<char>| is_inherited(cache, (i, attr), Fact::AtLeast(0)),
                        |attr: Seq<char>| inherited_facts(cache, (i, attr)),
                    ),
                ),
        ),
        ..cache
    }
}

proof fn lemma_weaker_fact(cache: CacheView, node: Node, fact: Fact, weaker: Fact)
    requires
        is_inherited(cache, node, fact),
        match (fact, weaker) {
            (Fact::AtLeast(a), Fact::AtLeast(b)) => b <= a || b <= 0,
            (Fact::Concern(_), Fact::AtLeast(b)) => b <= 0,
            _ => false,
        },
    ensures
        is_inherited(cache, node, weaker),
{
    let origin = choose|origin: Node| #[trigger]
        reaches(cache, origin, node) && is_held(cache.modules, origin, fact);
    assert(is_held(cache.modules, origin, weaker));
}

proof fn lemma_inherited_in_range(cache: CacheView, node: Node, fact: Fact)
    requires
        is_inherited(cache, node, fact),
    ensures
        0 <= node.0 < cache.modules.len(),
{
    let origin = choose|origin: Node| #[trigger]
        reaches(cache, origin, node) && is_held(cache.modules, origin, fact);
    let path = choose|path: Seq<Node>| is_route(cache, path, origin, node);
    if path.len() > 1 {
        let n = path.len() - 2;
        assert(feeds(cache, path[n], path[n + 1]));
        let k = choose|k: int|
            0 <= k < cache.re_exports.len() && ends(
                cache.modules,
                #[trigger] cache.re_exports[k],
            ) == Some((path[n], path[n + 1]));
        lemma_slot(cache.modules, cache.re_exports[k].exported_module);
    }
}

/// Verdicts can be carried along the re-exports of every cache.
pub proof fn lemma_propagation_exists(cache: CacheView)
    ensures
        is_propagated(cache, propagated(cache)),
{
    let after = with_inherited_facts(cache);
    assert forall|node: Node, fact: Fact| #[trigger] is_held(after.modules, node, fact)
        <==> is_inherited(cache, node, fact) by {
        let top = Fact::AtLeast(2);
        let middle = Fact::AtLeast(1);
        let bottom = Fact::AtLeast(0);
        if is_inherited(cache, node, fact) {
            lemma_inherited_in_range(cache, node, fact);
            lemma_weaker_fact(cache, node, fact, bottom);
            if let Fact::AtLeast(severity) = fact {
                if severity > 2 {
                    let origin = choose|origin: Node| #[trigger]
                        reaches(cache, origin, node) && is_held(cache.modules, origin, fact);
                    assert(false);
                }
                if severity == 1 && is_inherited(cache, node, top) {
                    lemma_weaker_fact(cache, node, top, middle);
                }
            }
        }
        if is_held(after.modules, node, fact) {
            if let Fact::AtLeast(severity) = fact {
                if severity == 1 && is_inherited(cache, node, top) {
                    lemma_weaker_fact(cache, node, top, middle);
                }
                if severity <= 0 {
                    lemma_weaker_fact(cache, node, bottom, fact);
                }
            }
        }
    }
    assert(same_but_verdicts(cache.modules, after.modules));
    assert(is_propagated(cache, after));
}

/// What verdicts are carried to is settled by the cache alone, in whatever order the
/// re-exports are followed.
pub proof fn lemma_propagation_is_unique(before: CacheView, a: CacheView, b: CacheView)
    requires
        is_propagated(before, a),
        is_propagated(before, b),
    ensures
        a == b,
        a == propagated(before),
{
    lemma_same_propagation(before, a, b);
    lemma_same_propagation(before, a, propagated(before));
}

proof fn lemma_same_propagation(before: CacheView, a: CacheView, b: CacheView)
    requires
        is_propagated(before, a),
        is_propagated(before, b),
    ensures
        a == b,
{
    assert forall|i: int| 0 <= i < before.modules.len() implies #[trigger] a.modules[i]
        == b.modules[i] by {
        let x = a.modules[i].function_safety;
        let y = b.modules[i].function_safety;
        assert forall|attr: Seq<char>| #[trigger] x.contains_key(attr) <==> y.contains_key(attr) by {
            assert(is_held(a.modules, (i, attr), Fact::AtLeast(0)) <==> is_held(
                b.modules,
                (i, attr),
                Fact::AtLeast(0),
            ));
        }
        assert forall|attr: Seq<char>| #[trigger] x.contains_key(attr) implies x[attr]
            == y[attr] by {
            let node = (i, attr);
            assert(is_held(a.modules, node, Fact::AtLeast(x[attr].verdict.severity())));
            assert(is_held(b.modules, node, Fact::AtLeast(x[attr].verdict.severity())));
            assert(is_held(b.modules, node, Fact::AtLeast(y[attr].verdict.severity())));
            assert(is_held(a.modules, node, Fact::AtLeast(y[attr].verdict.severity())));
            assert(x[attr].verdict == y[attr].verdict);
            assert forall|concern: Seq<char>| #[trigger]
                x[attr].concerns.contains(concern) <==> y[attr].concerns.contains(concern) by {
                assert(is_held(a.modules, node, Fact::Concern(concern)) <==> is_held(
                    b.modules,
                    node,
                    Fact::Concern(concern),
                ));
            }
            assert(x[attr].concerns =~= y[attr].concerns);
        }
        assert(x =~= y);
    }
    assert(a.modules =~= b.modules);
}

proof fn lemma_same_slot(a: Seq<ModuleView>, b: Seq<ModuleView>, name: Seq<char>)
    requires
        same_but_verdicts(a, b),
    ensures
        module_slot(a, name) == module_slot(b, name),
    decreases a.len(),
{
    if a.len() > 0 {
        assert(b[a.len() - 1].name == a[a.len() - 1].name);
        assert forall|i: int| 0 <= i < a.drop_last().len() implies #[trigger] b.drop_last()[i]
            == with_verdicts(a.drop_last()[i], b.drop_last()[i].function_safety) by {
            assert(b.drop_last()[i] == b[i]);
        }
        lemma_same_slot(a.drop_last(), b.drop_last(), name);
    }
}

proof fn lemma_same_routes(a: CacheView, b: CacheView, path: Seq<Node>, m: Node, n: Node)
    requires
        same_but_verdicts(a.modules, b.modules),
        a.re_exports == b.re_exports,
        is_route(b, path, m, n),
    ensures
        is_route(a, path, m, n),
{
    assert forall|i: int|
        #![trigger path[i]]
        0 <= i < path.len() - 1 implies feeds(a, path[i], path[i + 1]) by {
        assert(feeds(b, path[i], path[i + 1]));
        let k = choose|k: int|
            0 <= k < b.re_exports.len() && ends(b.modules, #[trigger] b.re_exports[k]) == Some(
                (path[i], path[i + 1]),
            );
        lemma_same_slot(a.modules, b.modules, b.re_exports[k].imported_module);
        lemma_same_slot(a.modules, b.modules, b.re_exports[k].exported_module);
        assert(ends(a.modules, a.re_exports[k]) == Some((path[i], path[i + 1])));
    }
}

proof fn lemma_reaches_through(cache: CacheView, a: Node, b: Node, c: Node)
    requires
        reaches(cache, a, b),
        reaches(cache, b, c),
    ensures
        reaches(cache, a, c),
{
    let first = choose|path: Seq<Node>| is_route(cache, path, a, b);
    let second = choose|path: Seq<Node>| is_route(cache, path, b, c);
    let whole = first + second.skip(1);
    assert forall|i: int|
        #![trigger whole[i]]
        0 <= i < whole.len() - 1 implies feeds(cache, whole[i], whole[i + 1]) by {
        if i < first.len() - 1 {
            assert(feeds(cache, first[i], first[i + 1]));
        } else {
            let j = i - (first.len() - 1);
            assert(whole[i] == second[j]);
            assert(whole[i + 1] == second[j + 1]);
            assert(feeds(cache, second[j], second[j + 1]));
        }
    }
    assert(whole.last() == c) by {
        if second.len() == 1 {
            assert(whole.last() == first.last());
        } else {
            assert(whole.last() == second.last());
        }
    }
    assert(is_route(cache, whole, a, c));
}

/// Carrying verdicts a second time changes nothing.
pub proof fn lemma_propagation_is_idempotent(before: CacheView, once: CacheView, twice: CacheView)
    requires
        is_propagated(before, once),
        is_propagated(once, twice),
    ensures
        twice == once,
{
    assert forall|node: Node, fact: Fact| #[trigger] is_held(once.modules, node, fact)
        <==> is_inherited(once, node, fact) by {
        if is_held(once.modules, node, fact) {
            lemma_reaches_itself(once, node);
        }
        if is_inherited(once, node, fact) {
            let origin = choose|origin: Node| #[trigger]
                reaches(once, origin, node) && is_held(once.modules, origin, fact);
            let path = choose|path: Seq<Node>| is_route(once, path, origin, node);
            lemma_same_routes(before, once, path, origin, node);
            assert(reaches(before, origin, node));
            assert(is_inherited(before, origin, fact));
            let source = choose|source: Node| #[trigger]
                reaches(before, source, origin) && is_held(before.modules, source, fact);
            lemma_reaches_through(before, source, origin, node);
            assert(is_inherited(before, node, fact));
        }
    }
    assert(is_propagated(once, once));
    lemma_same_propagation(once, once, twice);
}

/// Nothing that was held against a function is lost.
pub proof fn lemma_propagation_loses_nothing(
    before: CacheView,
    after: CacheView,
    node: Node,
    fact: Fact,
)
    requires
        is_propagated(before, after),
        is_held(before.modules, node, fact),
    ensures
        is_held(after.modules, node, fact),
{
    lemma_reaches_itself(before, node);
    assert(is_inherited(before, node, fact));
}

/// What is held against the function that a re-export reads is held against the one that it
/// offers.
pub proof fn lemma_propagation_follows_re_exports(
    before: CacheView,
    after: CacheView,
    k: int,
    fact: Fact,
)
    requires
        is_propagated(before, after),
        0 <= k < before.re_exports.len(),
        ends(before.modules, before.re_exports[k]) matches Some((source, target)) && is_held(
            after.modules,
            source,
            fact,
        ),
    ensures
        is_held(after.modules, (ends(before.modules, before.re_exports[k])->0).1, fact),
{
    let (source, target) = ends(before.modules, before.re_exports[k])->0;
    assert(feeds(before, source, target));
    assert(is_inherited(before, source, fact));
    let origin = choose|origin: Node| #[trigger]
        reaches(before, origin, source) && is_held(before.modules, origin, fact);
    lemma_reaches_further(before, origin, source, target);
    assert(is_inherited(before, target, fact));
}

} // verus!
