//! Settling imports against the modules that are known.
use vstd::prelude::*;
use vstd::string::StrSliceExecFns;

use crate::artifact::CachedModule;
use crate::artifact::ModuleView;
use crate::names::ModuleName;
use crate::names::NameSet;
use crate::resolver::module_dot;
use crate::text::chars_of;

verus! {

/// The known module that `name` leads to: the one of that name, else the one with the longest
/// dotted prefix of it.
pub open spec fn known_module(modules: Set<Seq<char>>, name: Seq<char>) -> Option<Seq<char>> {
    if modules.contains(name) {
        Some(name)
    } else {
        match module_dot(modules, name, name.len() as int) {
            Some(i) => Some(name.take(i)),
            None => None,
        }
    }
}

/// The known modules that the names lead to.
pub open spec fn targets(modules: Set<Seq<char>>, names: Set<Seq<char>>) -> Set<Seq<char>> {
    Set::new(
        |target: Seq<char>|
            exists|name: Seq<char>| #[trigger]
                names.contains(name) && known_module(modules, name) == Some(target),
    )
}

/// The names that lead to no known module.
pub open spec fn unresolved(modules: Set<Seq<char>>, names: Set<Seq<char>>) -> Set<Seq<char>> {
    names.filter(|name: Seq<char>| known_module(modules, name) is None)
}

/// The module with its ambiguous imports settled: those that lead to another module are
/// imports now.
pub open spec fn without_ambiguous(module: ModuleView, modules: Set<Seq<char>>) -> ModuleView {
    ModuleView {
        imports: module.imports.union(
            targets(modules, module.ambiguous_imports).remove(module.name),
        ),
        ambiguous_imports: Set::empty(),
        ..module
    }
}

/// What a module name leads to is known, and is the name or a dotted prefix of it.
pub proof fn lemma_known_module(modules: Set<Seq<char>>, name: Seq<char>)
    ensures
        known_module(modules, name) matches Some(target) ==> {
            &&& modules.contains(target)
            &&& target == name || (target.len() < name.len() && target == name.take(
                target.len() as int,
            ) && name[target.len() as int] == '.')
        },
        known_module(modules, name) is None ==> !modules.contains(name),
{
    lemma_module_dot(modules, name, name.len() as int);
}

proof fn lemma_module_dot(modules: Set<Seq<char>>, text: Seq<char>, n: int)
    requires
        n <= text.len(),
    ensures
        module_dot(modules, text, n) matches Some(i) ==> 0 <= i < n && text[i] == '.'
            && modules.contains(text.take(i)),
    decreases n,
{
    if n > 0 && !(text[n - 1] == '.' && modules.contains(text.take(n - 1))) {
        lemma_module_dot(modules, text, n - 1);
    }
}

/// Settling ambiguous imports leaves none, makes no module an import of itself, and imports
/// only known modules.
pub proof fn lemma_ambiguous_settled(module: ModuleView, modules: Set<Seq<char>>)
    ensures
        without_ambiguous(module, modules).ambiguous_imports.is_empty(),
        without_ambiguous(module, modules).imports.contains(module.name)
            == module.imports.contains(module.name),
        forall|name: Seq<char>| #[trigger]
            without_ambiguous(module, modules).imports.contains(name) ==> module.imports.contains(
                name,
            ) || modules.contains(name),
{
    assert forall|name: Seq<char>| #[trigger]
        without_ambiguous(module, modules).imports.contains(name) implies module.imports.contains(
        name,
    ) || modules.contains(name) by {
        if targets(modules, module.ambiguous_imports).contains(name) {
            let from = choose|from: Seq<char>| #[trigger]
                module.ambiguous_imports.contains(from) && known_module(modules, from) == Some(
                    name,
                );
            lemma_known_module(modules, from);
        }
    }
}

/// The known module that `name` leads to.
pub fn resolve_to_known_module(name: &str, modules: &NameSet) -> (r: Option<ModuleName>)
    ensures
        r is Some <==> known_module(modules@, name@) is Some,
        r matches Some(target) ==> known_module(modules@, name@) == Some(target@),
{
    if modules.contains(name) {
        return Some(ModuleName::from_str(name));
    }
    let chars = chars_of(name);
    let mut n: usize = chars.len();
    while n > 0
        invariant
            n <= chars@.len(),
            chars@ == name@,
            !modules@.contains(name@),
            module_dot(modules@, name@, name@.len() as int) == module_dot(
                modules@,
                name@,
                n as int,
            ),
        decreases n,
    {
        if chars[n - 1] == '.' {
            let parent = name.substring_char(0, n - 1);
            assert(parent@ =~= name@.take(n - 1));
            if modules.contains(parent) {
                return Some(ModuleName::from_str(parent));
            }
        }
        n -= 1;
    }
    None
}

/// Resolves `name` and, where it leads to a module other than `from`, adds that as an import.
/// Hands back what it leads to, `from` too.
pub fn resolve_and_add_import_edge(
    imports: &mut NameSet,
    from: &ModuleName,
    name: &str,
    module_names: &NameSet,
) -> (r: Option<ModuleName>)
    ensures
        r is Some <==> known_module(module_names@, name@) is Some,
        r matches Some(target) ==> known_module(module_names@, name@) == Some(target@),
        final(imports)@ == (match known_module(module_names@, name@) {
            Some(target) => if target != from@ {
                old(imports)@.insert(target)
            } else {
                old(imports)@
            },
            None => old(imports)@,
        }),
{
    let resolved = resolve_to_known_module(name, module_names);
    if let Some(target) = &resolved {
        if !target.same(from) {
            imports.insert(target.to_text());
        }
    }
    resolved
}

/// Resolves every one of `names`, adding what they lead to as imports. Hands back what they
/// lead to, and those that lead nowhere.
pub fn resolve_all(
    imports: &mut NameSet,
    from: &ModuleName,
    names: &NameSet,
    module_names: &NameSet,
) -> (r: (NameSet, NameSet))
    ensures
        final(imports)@ == old(imports)@.union(targets(module_names@, names@).remove(from@)),
        r.0@ == targets(module_names@, names@),
        r.1@ == unresolved(module_names@, names@),
{
    let ghost all = names.items();
    let ghost before = imports@;
    let ghost known = module_names@;
    let n = names.len();
    let mut resolved = NameSet::new();
    let mut missing = NameSet::new();
    proof {
        let none = all.take(0).to_set();
        assert(targets(known, none) =~= Set::<Seq<char>>::empty());
        assert(before.union(targets(known, none).remove(from@)) =~= before);
        assert(unresolved(known, none) =~= Set::<Seq<char>>::empty());
    }
    for i in 0..n
        invariant
            n == all.len(),
            all == names.items(),
            known == module_names@,
            imports@ == before.union(targets(known, all.take(i as int).to_set()).remove(from@)),
            resolved@ == targets(known, all.take(i as int).to_set()),
            missing@ == unresolved(known, all.take(i as int).to_set()),
    {
        let name = names.item_at(i);
        let ghost seen = all.take(i as int).to_set();
        let ghost now = all.take(i + 1).to_set();
        proof {
            assert(all.take(i + 1) =~= all.take(i as int).push(name@));
            all.take(i as int).lemma_push_to_set_commute(name@);
            assert(now == seen.insert(name@));
            lemma_targets_insert(known, seen, name@);
        }
        match resolve_and_add_import_edge(imports, from, name, module_names) {
            Some(target) => {
                resolved.insert(target.to_text());
                assert(unresolved(known, now) =~= unresolved(known, seen));
            },
            None => {
                missing.insert(name.to_owned());
                assert(unresolved(known, now) =~= unresolved(known, seen).insert(name@));
            },
        }
        proof {
            assert(imports@ =~= before.union(targets(known, now).remove(from@)));
        }
    }
    proof {
        names.lemma_items();
        assert(all.take(n as int) =~= all);
    }
    (resolved, missing)
}

proof fn lemma_targets_insert(modules: Set<Seq<char>>, names: Set<Seq<char>>, name: Seq<char>)
    ensures
        targets(modules, names.insert(name)) == (match known_module(modules, name) {
            Some(target) => targets(modules, names).insert(target),
            None => targets(modules, names),
        }),
{
    let more = names.insert(name);
    assert(more.contains(name));
    assert forall|target: Seq<char>| #[trigger] targets(modules, more).contains(target) <==> (
    targets(modules, names).contains(target) || known_module(modules, name) == Some(target)) by {
        if targets(modules, more).contains(target) {
            let from = choose|from: Seq<char>| #[trigger]
                more.contains(from) && known_module(modules, from) == Some(target);
            if from != name {
                assert(names.contains(from));
            }
        }
        if targets(modules, names).contains(target) {
            let from = choose|from: Seq<char>| #[trigger]
                names.contains(from) && known_module(modules, from) == Some(target);
            assert(more.contains(from));
        }
    }
    match known_module(modules, name) {
        Some(target) => {
            assert(targets(modules, more) =~= targets(modules, names).insert(target));
        },
        None => {
            assert(targets(modules, more) =~= targets(modules, names));
        },
    }
}

/// Settles the ambiguous imports of one module. Hands back what they lead to.
pub fn resolve_module_ambiguous(module: CachedModule, module_names: &NameSet) -> (r: (
    CachedModule,
    NameSet,
))
    ensures
        r.0@ == without_ambiguous(module@, module_names@),
        r.1@ == targets(module_names@, module@.ambiguous_imports),
{
    let mut module = module;
    let mut ambiguous = NameSet::new();
    std::mem::swap(&mut module.ambiguous_imports, &mut ambiguous);
    let mut imports = NameSet::new();
    std::mem::swap(&mut module.imports, &mut imports);
    let (resolved, _) = resolve_all(&mut imports, &module.name, &ambiguous, module_names);
    module.imports = imports;
    (module, resolved)
}

} // verus!
