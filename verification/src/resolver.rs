//! Deciding, from the merged verdicts, whether a call is safe and an error may go.
use dashmap::DashMap;
use vstd::prelude::*;
use vstd::string::StrSliceExecFns;

use crate::artifact::CalleesView;
use crate::artifact::ConstructorCallees;
use crate::artifact::NameList;
use crate::errors::CachedError;
use crate::errors::ErrorKind;
use crate::errors::ErrorView;
use crate::memo::memo_contents;
use crate::memo::memo_get;
use crate::mro::c3_linearize;
use crate::mro::method_order;
use crate::names::views;
use crate::names::ModuleName;
use crate::names::NameMap;
use crate::names::NameSet;
use crate::safety::FunctionSafety;
use crate::safety::FunctionSafetyInfo;
use crate::safety::SafetyFacts;
use crate::text::chars_of;
use crate::text::dotted;
use crate::text::join_dotted;
use crate::text::last_dot;
use crate::text::split_at_last_dot;
use crate::text::strip_calls;
use crate::text::trim_calls;

verus! {

/// The verdicts on the functions of one module.
pub type Verdicts = Map<Seq<char>, SafetyFacts>;

/// The last dot among the first `n` characters with a module's name before it.
pub open spec fn module_dot(modules: Set<Seq<char>>, text: Seq<char>, n: int) -> Option<int>
    decreases n,
{
    if n <= 0 {
        None
    } else if text[n - 1] == '.' && modules.contains(text.take(n - 1)) {
        Some(n - 1)
    } else {
        module_dot(modules, text, n - 1)
    }
}

/// The longest proper prefix of `text` that names a module, and the name behind it.
pub open spec fn split_name(modules: Set<Seq<char>>, text: Seq<char>) -> Option<
    (Seq<char>, Seq<char>),
> {
    match module_dot(modules, text, text.len() as int) {
        Some(i) => Some((text.take(i), text.skip(i + 1))),
        None => None,
    }
}

/// Whether the function is there and `Safe`.
pub open spec fn is_safe_in(verdicts: Verdicts, local: Seq<char>) -> bool {
    verdicts.contains_key(local) && verdicts[local].verdict == FunctionSafety::Safe
}

/// The methods that run when a class is instantiated.
pub open spec fn constructor_names(local: Seq<char>) -> Seq<Seq<char>> {
    seq![dotted(local, "__init__"@), dotted(local, "__new__"@)]
}

/// Whether the name is that of a class: one of its constructors has a verdict.
pub open spec fn is_class_like(verdicts: Verdicts, local: Seq<char>) -> bool {
    exists|i: int|
        0 <= i < constructor_names(local).len() && verdicts.contains_key(
            #[trigger] constructor_names(local)[i],
        )
}

/// Whether `name` is that of a function directly inside the function `local`.
pub open spec fn is_immediate_child(local: Seq<char>, name: Seq<char>) -> bool {
    &&& local.len() < name.len()
    &&& name.take(local.len() as int) == local
    &&& name[local.len() as int] == '.'
    &&& !name.skip(local.len() as int + 1).contains('.')
}

/// Whether a decorator that is called with arguments is safe: it is itself, and unless it is a
/// class, so is every function directly inside it.
pub open spec fn is_safe_decorator_in(verdicts: Verdicts, local: Seq<char>) -> bool {
    &&& is_safe_in(verdicts, local)
    &&& is_class_like(verdicts, local) || forall|name: Seq<char>|
        verdicts.contains_key(name) && is_immediate_child(local, name) ==> (
        #[trigger] verdicts[name]).verdict == FunctionSafety::Safe
}

/// The worst of some verdicts, if there is any.
pub open spec fn worst(verdicts: Seq<FunctionSafety>) -> Option<FunctionSafety>
    decreases verdicts.len(),
{
    if verdicts.len() == 0 {
        None
    } else {
        match worst(verdicts.drop_last()) {
            Some(verdict) => Some(verdict.worse(verdicts.last())),
            None => Some(verdicts.last()),
        }
    }
}

/// Whether some module has `name` as a safe decorator.
pub open spec fn some_module_decorates(
    modules: Set<Seq<char>>,
    by_module: Map<Seq<char>, Verdicts>,
    name: Seq<char>,
) -> bool {
    exists|module: Seq<char>| #[trigger]
        modules.contains(module) && by_module.contains_key(module) && is_safe_decorator_in(
            by_module[module],
            name,
        )
}

/// What a [`SafetyResolver`] decides by.
pub struct ResolverView {
    pub modules: Set<Seq<char>>,
    pub by_module: Map<Seq<char>, Verdicts>,
    pub globally_safe: Option<Set<Seq<char>>>,
    pub class_bases: Option<Map<Seq<char>, Seq<Seq<char>>>>,
    pub constructor_callees: Option<Map<Seq<char>, CalleesView>>,
}

impl ResolverView {
    /// The module's own verdict on `local`.
    pub open spec fn own_verdict(self, module: Seq<char>, local: Seq<char>) -> Option<
        FunctionSafety,
    > {
        if self.by_module.contains_key(module) && self.by_module[module].contains_key(local) {
            Some(self.by_module[module][local].verdict)
        } else {
            None
        }
    }

    /// The verdict on the function with this full name.
    pub open spec fn named_verdict(self, name: Seq<char>) -> Option<FunctionSafety> {
        match split_name(self.modules, name) {
            Some((module, local)) => self.own_verdict(module, local),
            None => None,
        }
    }

    /// The verdict on `method` in the first of the classes, from the `i`-th on, that has it.
    pub open spec fn first_verdict(self, classes: Seq<Seq<char>>, method: Seq<char>, i: int) -> Option<
        FunctionSafety,
    >
        decreases classes.len() - i,
    {
        if i >= classes.len() {
            None
        } else {
            match self.named_verdict(dotted(classes[i], method)) {
                Some(verdict) => Some(verdict),
                None => self.first_verdict(classes, method, i + 1),
            }
        }
    }

    /// The verdict that the class of the method `local` inherits for it.
    pub open spec fn inherited_verdict(self, module: Seq<char>, local: Seq<char>) -> Option<
        FunctionSafety,
    > {
        match (self.class_bases, last_dot(local, local.len() as int)) {
            (Some(bases), Some(i)) => self.first_verdict(
                method_order(bases, dotted(module, local.take(i))),
                local.skip(i + 1),
                1,
            ),
            _ => None,
        }
    }

    /// Whether a name without a module is that of a safe function: by the index if there is
    /// one, else if some module has it so.
    pub open spec fn unqualified_safe(self, name: Seq<char>) -> bool {
        match self.globally_safe {
            Some(index) => index.contains(name),
            None => exists|module: Seq<char>| #[trigger]
                self.modules.contains(module) && self.own_verdict(module, name) == Some(
                    FunctionSafety::Safe,
                ),
        }
    }

    /// Whether a call of `name` is safe: by the module's own verdict, else by the one that the
    /// class inherits.
    pub open spec fn call_safe(self, name: Seq<char>) -> bool {
        match split_name(self.modules, name) {
            Some((module, local)) => match self.own_verdict(module, local) {
                Some(verdict) => verdict == FunctionSafety::Safe,
                None => self.inherited_verdict(module, local) == Some(FunctionSafety::Safe),
            },
            None => self.unqualified_safe(name),
        }
    }

    /// Whether a call of the decorator `name` with arguments is safe.
    pub open spec fn decorator_safe(self, name: Seq<char>) -> bool {
        match split_name(self.modules, name) {
            Some((module, local)) => self.by_module.contains_key(module) && is_safe_decorator_in(
                self.by_module[module],
                local,
            ),
            None => some_module_decorates(self.modules, self.by_module, name),
        }
    }

    /// The verdict on a callee that is recorded by its full name. One that is not found is not
    /// safe.
    pub open spec fn recorded_callee_verdict(self, callee: Seq<char>) -> FunctionSafety {
        match self.named_verdict(callee) {
            Some(verdict) => verdict,
            None => FunctionSafety::Unsafe,
        }
    }

    /// The verdict on a recorded method of the class `owner`. One that is not found is not safe.
    pub open spec fn callee_verdict(self, owner: Seq<char>, method: Seq<char>) -> FunctionSafety {
        match split_name(self.modules, owner) {
            Some((module, local)) => match self.own_verdict(module, dotted(local, method)) {
                Some(verdict) => verdict,
                None => FunctionSafety::Unsafe,
            },
            None => FunctionSafety::Unsafe,
        }
    }

    /// The verdicts on everything that `callees` records for `class`.
    pub open spec fn callee_verdicts(self, callees: CalleesView, class: Seq<char>) -> Seq<
        FunctionSafety,
    > {
        Seq::new(
            callees.derived.len(),
            |i: int|
                self.callee_verdict(callees.owned_by(class)[i].0, callees.owned_by(class)[i].1),
        ) + Seq::new(
            callees.extra.len(),
            |i: int| self.recorded_callee_verdict(callees.extra[i]),
        )
    }

    /// The worst verdict on what runs when `class` is instantiated, if that is recorded.
    pub open spec fn constructor_verdict(self, class: Seq<char>) -> Option<FunctionSafety> {
        match self.constructor_callees {
            Some(recorded) => if recorded.contains_key(class) {
                worst(self.callee_verdicts(recorded[class], class))
            } else {
                None
            },
            None => None,
        }
    }

    /// Whether a verdict on its constructors lets `caller` instantiate `class`.
    pub open spec fn verdict_clears(
        self,
        verdict: FunctionSafety,
        caller: Seq<char>,
        class: Seq<char>,
    ) -> bool {
        match verdict {
            FunctionSafety::Safe => true,
            FunctionSafety::UnsafeIfImported => match split_name(self.modules, class) {
                Some((defining, _)) => defining == caller,
                None => false,
            },
            FunctionSafety::Unsafe => false,
        }
    }

    /// Whether the callee that the error names is safe.
    pub open spec fn error_safe(self, error: ErrorView) -> bool {
        let name = strip_calls(error.metadata);
        match error.kind {
            ErrorKind::UnsafeDecoratorCall | ErrorKind::UnknownDecoratorCall => {
                if error.parameterized_decorator {
                    self.decorator_safe(name)
                } else {
                    self.call_safe(name)
                }
            },
            ErrorKind::UnknownFunctionCall | ErrorKind::UnknownMethodCall => self.named_verdict(name)
                == Some(FunctionSafety::Safe),
            _ => self.call_safe(name),
        }
    }

    /// What the recorded constructors of a class say of an error that names it.
    pub open spec fn record_clears(self, caller: Seq<char>, error: ErrorView) -> Option<bool> {
        match error.kind {
            ErrorKind::UnsafeFunctionCall
            | ErrorKind::UnknownFunctionCall
            | ErrorKind::UnsafeDecoratorCall
            | ErrorKind::UnknownDecoratorCall => {
                let class = strip_calls(error.metadata);
                match self.constructor_verdict(class) {
                    Some(verdict) => Some(self.verdict_clears(verdict, caller, class)),
                    None => None,
                }
            },
            _ => None,
        }
    }

    /// Whether the error may go: by the recorded constructors if they speak of it, else if its
    /// kind is admitted and its callee is safe.
    pub open spec fn clears(self, caller: Seq<char>, error: ErrorView, admitted: bool) -> bool {
        match self.record_clears(caller, error) {
            Some(cleared) => cleared,
            None => admitted && self.error_safe(error),
        }
    }
}

/// Whether the function is there and `Safe`.
pub fn lookup_in_safety_map(local_name: &str, fs: &NameMap<FunctionSafetyInfo>) -> (r: bool)
    ensures
        r == is_safe_in(fs@, local_name@),
{
    match fs.get(local_name) {
        Some(info) => info.verdict.is_safe(),
        None => false,
    }
}

/// The names of the constructor methods of `local_name`.
pub fn constructors(local_name: &str) -> (r: Vec<String>)
    ensures
        views(r@) == constructor_names(local_name@),
{
    let mut r: Vec<String> = Vec::new();
    r.push(join_dotted(local_name, "__init__"));
    r.push(join_dotted(local_name, "__new__"));
    assert(views(r@) =~= constructor_names(local_name@));
    r
}

/// Whether `local_name` names a class: one of its constructors has a verdict.
pub fn is_class_like_entry(local_name: &str, fs: &NameMap<FunctionSafetyInfo>) -> (r: bool)
    ensures
        r == is_class_like(fs@, local_name@),
{
    let methods = constructors(local_name);
    let ghost names = constructor_names(local_name@);
    for i in 0..methods.len()
        invariant
            names == constructor_names(local_name@),
            views(methods@) == names,
            forall|j: int| 0 <= j < i ==> !fs@.contains_key(#[trigger] names[j]),
    {
        assert(views(methods@)[i as int] == methods@[i as int]@);
        if fs.contains_key(methods[i].as_str()) {
            assert(fs@.contains_key(names[i as int]));
            return true;
        }
    }
    false
}

/// Whether `name` is that of a function directly inside the function `local`.
fn is_direct_child(local: &str, name: &str) -> (r: bool)
    ensures
        r == is_immediate_child(local@, name@),
{
    let outer = chars_of(local);
    let inner = chars_of(name);
    let n = outer.len();
    if inner.len() <= n {
        return false;
    }
    for i in 0..n
        invariant
            n == outer@.len(),
            n < inner@.len(),
            outer@ == local@,
            inner@ == name@,
            forall|j: int| 0 <= j < i ==> outer@[j] == inner@[j],
    {
        if outer[i] != inner[i] {
            assert(name@.take(n as int)[i as int] != local@[i as int]);
            return false;
        }
    }
    assert(name@.take(n as int) =~= local@);
    if inner[n] != '.' {
        return false;
    }
    let m = inner.len();
    for i in n + 1..m
        invariant
            n == outer@.len(),
            m == inner@.len(),
            n < m,
            outer@ == local@,
            inner@ == name@,
            forall|j: int| n + 1 <= j < i ==> inner@[j] != '.',
    {
        if inner[i] == '.' {
            assert(name@.skip(n + 1)[i - n - 1] == '.');
            return false;
        }
    }
    assert(!name@.skip(n + 1).contains('.')) by {
        if name@.skip(n + 1).contains('.') {
            let j = name@.skip(n + 1).index_of('.');
            assert(name@.skip(n + 1)[j] == '.');
            assert(inner@[n + 1 + j] == '.');
        }
    }
    true
}

/// Whether a decorator that is called with arguments is safe. For `deco`, `deco.builder` is
/// asked too; `deco.b.inner` and `deco_helper` are not.
pub fn lookup_decorator_in_safety_map(local_name: &str, fs: &NameMap<FunctionSafetyInfo>) -> (r:
    bool)
    ensures
        r == is_safe_decorator_in(fs@, local_name@),
{
    if !lookup_in_safety_map(local_name, fs) {
        return false;
    }
    if is_class_like_entry(local_name, fs) {
        return true;
    }
    let n = fs.len();
    for i in 0..n
        invariant
            n == fs.keys().len(),
            !is_class_like(fs@, local_name@),
            forall|j: int|
                0 <= j < i && is_immediate_child(local_name@, #[trigger] fs.keys()[j])
                    ==> fs@[fs.keys()[j]].verdict == FunctionSafety::Safe,
    {
        if is_direct_child(local_name, fs.key_at(i)) {
            let info = fs.value_at(i);
            if !info.verdict.is_safe() {
                assert(fs@[fs.keys()[i as int]].verdict != FunctionSafety::Safe);
                return false;
            }
        }
    }
    proof {
        fs.lemma_keys();
        assert forall|name: Seq<char>|
            fs@.contains_key(name) && is_immediate_child(local_name@, name) implies (
        #[trigger] fs@[name]).verdict == FunctionSafety::Safe by {
            let j = fs.keys().index_of(name);
            assert(fs.keys()[j] == name);
        }
    }
    true
}

/// The merged verdicts, with the modules that names are looked up in.
///
/// A qualified name such as `mod.sub.func` is split behind its longest module prefix and
/// looked up there. A name such as `helper` is looked up in the index of safe names if there
/// is one, else in every module.
pub struct SafetyResolver<'a> {
    modules: &'a NameSet,
    by_module: &'a NameMap<NameMap<FunctionSafetyInfo>>,
    globally_safe: Option<&'a NameSet>,
    decorator_scan_cache: Option<&'a DashMap<String, bool>>,
    class_bases: Option<&'a NameMap<NameList>>,
    constructor_callees: Option<&'a NameMap<ConstructorCallees>>,
}

impl<'a> View for SafetyResolver<'a> {
    type V = ResolverView;

    closed spec fn view(&self) -> ResolverView {
        ResolverView {
            modules: self.modules@,
            by_module: self.by_module@,
            globally_safe: match self.globally_safe {
                Some(index) => Some(index@),
                None => None,
            },
            class_bases: match self.class_bases {
                Some(bases) => Some(bases@),
                None => None,
            },
            constructor_callees: match self.constructor_callees {
                Some(callees) => Some(callees@),
                None => None,
            },
        }
    }
}

/// Whether what the memo holds is what scanning the modules gives.
pub(crate) open spec fn memo_agrees(
    modules: Set<Seq<char>>,
    by_module: Map<Seq<char>, Verdicts>,
    memo: DashMap<String, bool>,
) -> bool {
    forall|name: Seq<char>| #[trigger]
        memo_contents(memo).contains_key(name) ==> memo_contents(memo)[name]
            == some_module_decorates(modules, by_module, name)
}

impl<'a> SafetyResolver<'a> {
    #[verifier::type_invariant]
    spec fn wf(&self) -> bool {
        self.decorator_scan_cache matches Some(memo) ==> memo_agrees(
            self.modules@,
            self.by_module@,
            *memo,
        )
    }

    /// The results of earlier scans for decorators that the resolver has at hand, by name.
    pub closed spec fn remembered(&self) -> Option<Map<Seq<char>, bool>> {
        match self.decorator_scan_cache {
            Some(memo) => Some(memo_contents(*memo)),
            None => None,
        }
    }

    /// A resolver with the verdicts alone.
    pub fn new(
        modules: &'a NameSet,
        by_module: &'a NameMap<NameMap<FunctionSafetyInfo>>,
    ) -> (r: Self)
        ensures
            r@ == (ResolverView {
                modules: modules@,
                by_module: by_module@,
                globally_safe: None,
                class_bases: None,
                constructor_callees: None,
            }),
            r.remembered() is None,
    {
        SafetyResolver {
            modules,
            by_module,
            globally_safe: None,
            decorator_scan_cache: None,
            class_bases: None,
            constructor_callees: None,
        }
    }

    /// A resolver with an index of the names that are safe without a module.
    pub fn with_safe_index(
        modules: &'a NameSet,
        by_module: &'a NameMap<NameMap<FunctionSafetyInfo>>,
        globally_safe: &'a NameSet,
    ) -> (r: Self)
        ensures
            r@ == (ResolverView {
                modules: modules@,
                by_module: by_module@,
                globally_safe: Some(globally_safe@),
                class_bases: None,
                constructor_callees: None,
            }),
            r.remembered() is None,
    {
        SafetyResolver {
            modules,
            by_module,
            globally_safe: Some(globally_safe),
            decorator_scan_cache: None,
            class_bases: None,
            constructor_callees: None,
        }
    }

    /// The resolver with the results of earlier scans at hand, in place of any that it had. It
    /// decides as before: they are what scanning the modules gives.
    pub(crate) fn with_decorator_cache(self, cache: &'a DashMap<String, bool>) -> (r: Self)
        requires
            memo_agrees(self@.modules, self@.by_module, *cache),
        ensures
            r@ == self@,
            r.remembered() == Some(memo_contents(*cache)),
    {
        SafetyResolver {
            modules: self.modules,
            by_module: self.by_module,
            globally_safe: self.globally_safe,
            decorator_scan_cache: Some(cache),
            class_bases: self.class_bases,
            constructor_callees: self.constructor_callees,
        }
    }

    /// The resolver with the bases of classes.
    pub fn with_class_bases(self, class_bases: &'a NameMap<NameList>) -> (r: Self)
        ensures
            r@ == (ResolverView { class_bases: Some(class_bases@), ..self@ }),
            r.remembered() == self.remembered(),
    {
        proof {
            use_type_invariant(&self);
        }
        SafetyResolver {
            modules: self.modules,
            by_module: self.by_module,
            globally_safe: self.globally_safe,
            decorator_scan_cache: self.decorator_scan_cache,
            class_bases: Some(class_bases),
            constructor_callees: self.constructor_callees,
        }
    }

    /// The resolver with what runs when classes are instantiated.
    pub fn with_constructor_callees(
        self,
        constructor_callees: &'a NameMap<ConstructorCallees>,
    ) -> (r: Self)
        ensures
            r@ == (ResolverView { constructor_callees: Some(constructor_callees@), ..self@ }),
            r.remembered() == self.remembered(),
    {
        proof {
            use_type_invariant(&self);
        }
        SafetyResolver {
            modules: self.modules,
            by_module: self.by_module,
            globally_safe: self.globally_safe,
            decorator_scan_cache: self.decorator_scan_cache,
            class_bases: self.class_bases,
            constructor_callees: Some(constructor_callees),
        }
    }

    /// The longest proper prefix of `func_name` that names a module, and the name behind it.
    pub fn split_at_module<'n>(&self, func_name: &'n str) -> (r: Option<(ModuleName, &'n str)>)
        ensures
            r is Some <==> split_name(self@.modules, func_name@) is Some,
            r matches Some(parts) ==> Some((parts.0@, parts.1@)) == split_name(
                self@.modules,
                func_name@,
            ),
    {
        let chars = chars_of(func_name);
        let mut n: usize = chars.len();
        while n > 0
            invariant
                n <= chars@.len(),
                chars@ == func_name@,
                module_dot(self@.modules, func_name@, func_name@.len() as int) == module_dot(
                    self@.modules,
                    func_name@,
                    n as int,
                ),
            decreases n,
        {
            if chars[n - 1] == '.' {
                let parent = func_name.substring_char(0, n - 1);
                assert(parent@ =~= func_name@.take(n - 1));
                if self.modules.contains(parent) {
                    let local = func_name.substring_char(n, chars.len());
                    assert(local@ =~= func_name@.skip(n as int));
                    return Some((ModuleName::from_str(parent), local));
                }
            }
            n -= 1;
        }
        None
    }

    /// The module's own verdict on `local`.
    pub fn own_verdict(&self, module: &ModuleName, local: &str) -> (r: Option<FunctionSafety>)
        ensures
            r == self@.own_verdict(module@, local@),
    {
        match self.by_module.get(module.as_str()) {
            Some(fs) => match fs.get(local) {
                Some(info) => Some(info.verdict),
                None => None,
            },
            None => None,
        }
    }

    /// Whether the module's own verdict on `local` is `Safe`.
    pub fn own_call_safe(&self, module: &ModuleName, local: &str) -> (r: bool)
        ensures
            r == (self@.own_verdict(module@, local@) == Some(FunctionSafety::Safe)),
    {
        match self.own_verdict(module, local) {
            Some(verdict) => verdict.is_safe(),
            None => false,
        }
    }

    /// The verdict that the class of the method `local` inherits for it: that of the first
    /// ancestor that has the method. The class itself is not asked.
    pub fn mro_method_verdict(&self, module: &ModuleName, local: &str) -> (r: Option<
        FunctionSafety,
    >)
        ensures
            r == self@.inherited_verdict(module@, local@),
    {
        let class_bases = match self.class_bases {
            Some(class_bases) => class_bases,
            None => {
                return None;
            },
        };
        let (class_local, method) = match split_at_last_dot(local) {
            Some(sides) => sides,
            None => {
                return None;
            },
        };
        let class = module.append_str(class_local);
        let order = c3_linearize(class_bases, &class);
        let ghost classes = views(order@);
        let mut i: usize = 1;
        while i < order.len()
            invariant
                1 <= i,
                classes == views(order@),
                self@.first_verdict(classes, method@, 1) == self@.first_verdict(
                    classes,
                    method@,
                    i as int,
                ),
                self@.inherited_verdict(module@, local@) == self@.first_verdict(
                    classes,
                    method@,
                    1,
                ),
            decreases order@.len() - i,
        {
            let candidate = order[i].append_str(method);
            assert(candidate@ == dotted(classes[i as int], method@));
            if let Some((base, base_local)) = self.split_at_module(candidate.as_str()) {
                if let Some(verdict) = self.own_verdict(&base, base_local) {
                    return Some(verdict);
                }
            }
            i += 1;
        }
        None
    }

    /// Whether a name without a module is that of a safe function.
    pub fn unqualified_safe(&self, func_name: &str) -> (r: bool)
        ensures
            r == self@.unqualified_safe(func_name@),
    {
        if let Some(index) = self.globally_safe {
            return index.contains(func_name);
        }
        let n = self.modules.len();
        for i in 0..n
            invariant
                n == self.modules.items().len(),
                self@.globally_safe is None,
                forall|j: int|
                    0 <= j < i ==> self@.own_verdict(
                        #[trigger] self.modules.items()[j],
                        func_name@,
                    ) != Some(FunctionSafety::Safe),
        {
            let module = ModuleName::from_str(self.modules.item_at(i));
            if self.own_call_safe(&module, func_name) {
                assert(self@.modules.contains(module@));
                return true;
            }
        }
        proof {
            self.modules.lemma_items();
            assert forall|module: Seq<char>| #[trigger]
                self@.modules.contains(module) implies self@.own_verdict(module, func_name@)
                != Some(FunctionSafety::Safe) by {
                let j = self.modules.items().index_of(module);
                assert(self.modules.items()[j] == module);
            }
        }
        false
    }

    /// Whether a call of `func_name` is safe. The ancestors of a class are asked only where
    /// the class does not define the method itself.
    pub fn is_call_verified_safe(&self, func_name: &str) -> (r: bool)
        ensures
            r == self@.call_safe(func_name@),
    {
        match self.split_at_module(func_name) {
            Some((module, local)) => match self.own_verdict(&module, local) {
                Some(verdict) => verdict.is_safe(),
                None => match self.mro_method_verdict(&module, local) {
                    Some(verdict) => verdict.is_safe(),
                    None => false,
                },
            },
            None => self.unqualified_safe(func_name),
        }
    }

    /// Whether a call of `func_name`, which may not be the name of what is called, is safe:
    /// only a module's own verdict counts.
    pub fn is_call_verified_safe_no_unqualified(&self, func_name: &str) -> (r: bool)
        ensures
            r == (self@.named_verdict(func_name@) == Some(FunctionSafety::Safe)),
    {
        match self.split_at_module(func_name) {
            Some((module, local)) => self.own_call_safe(&module, local),
            None => false,
        }
    }

    /// Whether some module has `func_name` as a safe decorator.
    pub fn scan_unqualified_decorator_safe(&self, func_name: &str) -> (r: bool)
        ensures
            r == some_module_decorates(self@.modules, self@.by_module, func_name@),
    {
        let n = self.modules.len();
        for i in 0..n
            invariant
                n == self.modules.items().len(),
                forall|j: int|
                    0 <= j < i ==> {
                        let module = #[trigger] self.modules.items()[j];
                        !(self@.by_module.contains_key(module) && is_safe_decorator_in(
                            self@.by_module[module],
                            func_name@,
                        ))
                    },
        {
            let module = self.modules.item_at(i);
            if let Some(fs) = self.by_module.get(module) {
                if lookup_decorator_in_safety_map(func_name, fs) {
                    assert(self@.modules.contains(module@));
                    return true;
                }
            }
        }
        proof {
            self.modules.lemma_items();
            assert forall|module: Seq<char>| #[trigger]
                self@.modules.contains(module) implies !(self@.by_module.contains_key(module)
                && is_safe_decorator_in(self@.by_module[module], func_name@)) by {
                let j = self.modules.items().index_of(module);
                assert(self.modules.items()[j] == module);
            }
        }
        false
    }

    /// Whether a call of the decorator `func_name` with arguments is safe. The factory runs
    /// the wrapper that it returns, so what it defines counts too.
    pub fn is_decorator_call_verified_safe(&self, func_name: &str) -> (r: bool)
        ensures
            r == self@.decorator_safe(func_name@),
    {
        if let Some((module, local)) = self.split_at_module(func_name) {
            return match self.by_module.get(module.as_str()) {
                Some(fs) => lookup_decorator_in_safety_map(local, fs),
                None => false,
            };
        }
        if let Some(cache) = self.decorator_scan_cache {
            if let Some(cached) = memo_get(cache, func_name) {
                proof {
                    use_type_invariant(self);
                }
                return cached;
            }
        }
        self.scan_unqualified_decorator_safe(func_name)
    }

    /// The verdict on a callee that is recorded by its full name.
    pub fn recorded_callee_verdict(&self, callee: &ModuleName) -> (r: FunctionSafety)
        ensures
            r == self@.recorded_callee_verdict(callee@),
    {
        match self.split_at_module(callee.as_str()) {
            Some((module, local)) => match self.own_verdict(&module, local) {
                Some(verdict) => verdict,
                None => FunctionSafety::Unsafe,
            },
            None => FunctionSafety::Unsafe,
        }
    }

    /// The verdict on a recorded method of the class `owner`. One that is no longer found is
    /// not safe: it was seen to run.
    pub fn callee_verdict(&self, owner: &ModuleName, method: &str) -> (r: FunctionSafety)
        ensures
            r == self@.callee_verdict(owner@, method@),
    {
        match self.split_at_module(owner.as_str()) {
            Some((module, local)) => {
                let name = join_dotted(local, method);
                match self.own_verdict(&module, name.as_str()) {
                    Some(verdict) => verdict,
                    None => FunctionSafety::Unsafe,
                }
            },
            None => FunctionSafety::Unsafe,
        }
    }

    /// The worst verdict on what runs when `class_fqn` is instantiated, if that is recorded.
    pub fn recorded_constructor_verdict(&self, class_fqn: &ModuleName) -> (r: Option<
        FunctionSafety,
    >)
        ensures
            r == self@.constructor_verdict(class_fqn@),
    {
        let callees = match self.constructor_callees {
            Some(callees) => callees,
            None => {
                return None;
            },
        };
        let recorded = match callees.get(class_fqn.as_str()) {
            Some(recorded) => recorded,
            None => {
                return None;
            },
        };
        let ghost all = self@.callee_verdicts(recorded@, class_fqn@);
        let derived = recorded.iter(class_fqn);
        let mut total: Option<FunctionSafety> = None;
        let n = derived.len();
        for i in 0..n
            invariant
                n == derived@.len(),
                n == recorded@.derived.len(),
                all == self@.callee_verdicts(recorded@, class_fqn@),
                forall|j: int|
                    0 <= j < n ==> {
                        let callee = #[trigger] derived@[j];
                        (callee.0@, callee.1@) == recorded@.owned_by(class_fqn@)[j]
                    },
                total == worst(all.take(i as int)),
        {
            let callee = &derived[i];
            let verdict = self.callee_verdict(&callee.0, callee.1.as_str());
            assert((derived@[i as int].0@, derived@[i as int].1@) == recorded@.owned_by(
                class_fqn@,
            )[i as int]);
            assert(verdict == all[i as int]);
            total = include_verdict(total, verdict, Ghost(all), Ghost(i as int));
        }
        let m = recorded.extra.len();
        for i in 0..m
            invariant
                m == recorded.extra@.len(),
                n == recorded@.derived.len(),
                all == self@.callee_verdicts(recorded@, class_fqn@),
                total == worst(all.take(n + i)),
        {
            let verdict = self.recorded_callee_verdict(&recorded.extra[i]);
            assert(recorded@.extra[i as int] == recorded.extra@[i as int]@);
            assert(verdict == all[n + i]);
            total = include_verdict(total, verdict, Ghost(all), Ghost(n + i));
        }
        assert(all.take(n + m) =~= all);
        total
    }

    /// Whether a verdict on its constructors lets the caller instantiate the class. Where they
    /// are safe only inside the module that defines the class, only that module may.
    pub fn constructor_verdict_clears(
        &self,
        verdict: FunctionSafety,
        caller_module: &ModuleName,
        class_fqn: &ModuleName,
    ) -> (r: bool)
        ensures
            r == self@.verdict_clears(verdict, caller_module@, class_fqn@),
    {
        match verdict {
            FunctionSafety::Safe => true,
            FunctionSafety::UnsafeIfImported => match self.split_at_module(class_fqn.as_str()) {
                Some((defining, _)) => defining.same(caller_module),
                None => false,
            },
            FunctionSafety::Unsafe => false,
        }
    }

    /// Whether the callee that the error names is safe, by the rule for the error's kind. The
    /// name of a call that could not be bound must not be taken for that of a function of the
    /// same name elsewhere.
    pub fn is_error_verified_safe(&self, error: &CachedError) -> (r: bool)
        ensures
            r == self@.error_safe(error@),
    {
        let func_name = trim_calls(error.metadata.as_str());
        match error.kind {
            ErrorKind::UnsafeDecoratorCall | ErrorKind::UnknownDecoratorCall => {
                if error.parameterized_decorator {
                    self.is_decorator_call_verified_safe(func_name)
                } else {
                    self.is_call_verified_safe(func_name)
                }
            },
            ErrorKind::UnknownFunctionCall | ErrorKind::UnknownMethodCall => {
                self.is_call_verified_safe_no_unqualified(func_name)
            },
            _ => self.is_call_verified_safe(func_name),
        }
    }

    /// What the recorded constructors of a class say of an error that names it; `None` if no
    /// record speaks of it.
    pub fn recorded_constructor_clears(&self, caller: &ModuleName, error: &CachedError) -> (r:
        Option<bool>)
        ensures
            r == self@.record_clears(caller@, error@),
    {
        match error.kind {
            ErrorKind::UnsafeFunctionCall
            | ErrorKind::UnknownFunctionCall
            | ErrorKind::UnsafeDecoratorCall
            | ErrorKind::UnknownDecoratorCall => {
                let class = ModuleName::from_str(trim_calls(error.metadata.as_str()));
                match self.recorded_constructor_verdict(&class) {
                    Some(verdict) => Some(self.constructor_verdict_clears(verdict, caller, &class)),
                    None => None,
                }
            },
            _ => None,
        }
    }

    /// Whether `error` in `caller` may go. `kinds` is asked only where no record of
    /// constructors decides.
    pub fn clears_error<F: Fn(ErrorKind) -> bool>(
        &self,
        caller: &ModuleName,
        error: &CachedError,
        kinds: F,
    ) -> (r: bool)
        requires
            call_requires(kinds, (error.kind,)),
        ensures
            exists|admitted: bool| #[trigger]
                self@.clears(caller@, error@, admitted) == r && (self@.record_clears(
                    caller@,
                    error@,
                ) is None ==> call_ensures(kinds, (error.kind,), admitted)),
    {
        if let Some(cleared) = self.recorded_constructor_clears(caller, error) {
            assert(self@.clears(caller@, error@, true) == cleared);
            return cleared;
        }
        let admitted = kinds(error.kind);
        let r = admitted && self.is_error_verified_safe(error);
        assert(self@.clears(caller@, error@, admitted) == r);
        r
    }
}

/// The worst of one verdict more.
fn include_verdict(
    total: Option<FunctionSafety>,
    verdict: FunctionSafety,
    Ghost(all): Ghost<Seq<FunctionSafety>>,
    Ghost(i): Ghost<int>,
) -> (r: Option<FunctionSafety>)
    requires
        0 <= i < all.len(),
        all[i] == verdict,
        total == worst(all.take(i)),
    ensures
        r == worst(all.take(i + 1)),
{
    assert(all.take(i + 1).drop_last() =~= all.take(i));
    match total {
        Some(sofar) => Some(sofar.join(verdict)),
        None => Some(verdict),
    }
}

/// Whether a call of `func_name` is safe by the verdicts on the resolved modules.
pub fn is_call_verified_safe(
    func_name: &str,
    resolved_modules: &NameSet,
    func_safety_by_module: &NameMap<NameMap<FunctionSafetyInfo>>,
) -> (r: bool)
    ensures
        r == (ResolverView {
            modules: resolved_modules@,
            by_module: func_safety_by_module@,
            globally_safe: None,
            class_bases: None,
            constructor_callees: None,
        }).call_safe(func_name@),
{
    SafetyResolver::new(resolved_modules, func_safety_by_module).is_call_verified_safe(func_name)
}

/// A class's own verdict on a method shadows what it inherits: no ancestor is asked.
pub proof fn lemma_own_verdict_shadows_bases(
    resolver: ResolverView,
    bases: Option<Map<Seq<char>, Seq<Seq<char>>>>,
    name: Seq<char>,
    verdict: FunctionSafety,
)
    requires
        resolver.named_verdict(name) == Some(verdict),
    ensures
        resolver.call_safe(name) == (verdict == FunctionSafety::Safe),
        (ResolverView { class_bases: bases, ..resolver }).call_safe(name) == resolver.call_safe(
            name,
        ),
{
}

/// Without class bases, a method that its class does not define is not safe.
pub proof fn lemma_no_bases_no_inheritance(resolver: ResolverView, name: Seq<char>)
    requires
        resolver.class_bases is None,
        split_name(resolver.modules, name) is Some,
        resolver.named_verdict(name) is None,
    ensures
        !resolver.call_safe(name),
{
}

/// A call that could not be bound does not go by its bare name: only a module's own verdict on
/// the qualified name clears it, whatever is safe elsewhere.
pub proof fn lemma_unbound_name_is_not_cleared(
    resolver: ResolverView,
    caller: Seq<char>,
    error: ErrorView,
    admitted: bool,
)
    requires
        error.kind == ErrorKind::UnknownFunctionCall || error.kind == ErrorKind::UnknownMethodCall,
        resolver.record_clears(caller, error) is None,
        split_name(resolver.modules, strip_calls(error.metadata)) is None,
    ensures
        !resolver.clears(caller, error, admitted),
{
}

/// Where the constructors of a class are recorded, they alone decide: neither the kind of the
/// error nor the index of safe names matters.
pub proof fn lemma_recorded_constructors_decide(
    resolver: ResolverView,
    index: Option<Set<Seq<char>>>,
    caller: Seq<char>,
    error: ErrorView,
)
    requires
        resolver.record_clears(caller, error) is Some,
    ensures
        resolver.clears(caller, error, true) == resolver.clears(caller, error, false),
        (ResolverView { globally_safe: index, ..resolver }).clears(caller, error, true)
            == resolver.clears(caller, error, true),
{
    let other = ResolverView { globally_safe: index, ..resolver };
    let class = strip_calls(error.metadata);
    if let Some(recorded) = resolver.constructor_callees {
        if recorded.contains_key(class) {
            assert(other.callee_verdicts(recorded[class], class) =~= resolver.callee_verdicts(
                recorded[class],
                class,
            ));
        }
    }
}

/// A recorded constructor that is not safe outranks whatever verdict the class itself has.
pub proof fn lemma_unsafe_constructor_outranks_class(
    resolver: ResolverView,
    caller: Seq<char>,
    error: ErrorView,
    admitted: bool,
)
    requires
        error.kind == ErrorKind::UnsafeFunctionCall || error.kind == ErrorKind::UnknownFunctionCall
            || error.kind == ErrorKind::UnsafeDecoratorCall || error.kind
            == ErrorKind::UnknownDecoratorCall,
        resolver.constructor_verdict(strip_calls(error.metadata)) == Some(FunctionSafety::Unsafe),
    ensures
        !resolver.clears(caller, error, admitted),
{
}

/// A constructor that is safe only inside the module that defines the class clears a call in
/// that module, and in no other.
pub proof fn lemma_only_the_defining_module_clears(
    resolver: ResolverView,
    caller: Seq<char>,
    class: Seq<char>,
)
    ensures
        resolver.verdict_clears(FunctionSafety::UnsafeIfImported, caller, class) <==> (split_name(
            resolver.modules,
            class,
        ) matches Some((defining, _)) && defining == caller),
{
}

/// The worst verdict is `Safe` only where all are.
pub proof fn lemma_worst(verdicts: Seq<FunctionSafety>)
    ensures
        worst(verdicts) is None <==> verdicts.len() == 0,
        worst(verdicts) == Some(FunctionSafety::Safe) <==> verdicts.len() > 0 && forall|i: int|
            0 <= i < verdicts.len() ==> #[trigger] verdicts[i] == FunctionSafety::Safe,
    decreases verdicts.len(),
{
    if verdicts.len() > 0 {
        let shorter = verdicts.drop_last();
        lemma_worst(shorter);
        assert forall|i: int| 0 <= i < shorter.len() implies #[trigger] shorter[i]
            == verdicts[i] by {}
        assert(verdicts[verdicts.len() - 1] == verdicts.last());
        if forall|i: int|
            0 <= i < verdicts.len() ==> #[trigger] verdicts[i] == FunctionSafety::Safe {
            assert forall|i: int| 0 <= i < shorter.len() implies #[trigger] shorter[i]
                == FunctionSafety::Safe by {
                assert(verdicts[i] == FunctionSafety::Safe);
            }
        }
        if worst(verdicts) == Some(FunctionSafety::Safe) {
            assert forall|i: int| 0 <= i < verdicts.len() implies #[trigger] verdicts[i]
                == FunctionSafety::Safe by {
                if i < shorter.len() {
                    assert(shorter[i] == verdicts[i]);
                }
            }
        }
    }
}

/// An error about a decorator goes or stays whatever the index of safe names holds, if the
/// decorator is called with arguments or its name is qualified.
pub proof fn lemma_index_does_not_decide_decorators(
    resolver: ResolverView,
    index: Option<Set<Seq<char>>>,
    caller: Seq<char>,
    error: ErrorView,
    admitted: bool,
)
    requires
        error.kind == ErrorKind::UnsafeDecoratorCall,
        error.parameterized_decorator || split_name(
            resolver.modules,
            strip_calls(error.metadata),
        ) is Some,
    ensures
        (ResolverView { globally_safe: index, ..resolver }).clears(caller, error, admitted)
            == resolver.clears(caller, error, admitted),
{
    let other = ResolverView { globally_safe: index, ..resolver };
    let name = strip_calls(error.metadata);
    if let Some(recorded) = resolver.constructor_callees {
        if recorded.contains_key(name) {
            assert(other.callee_verdicts(recorded[name], name) =~= resolver.callee_verdicts(
                recorded[name],
                name,
            ));
        }
    }
    if let Some((module, local)) = split_name(resolver.modules, name) {
        if let (Some(bases), Some(i)) = (
            resolver.class_bases,
            last_dot(local, local.len() as int),
        ) {
            lemma_same_first_verdict(
                resolver,
                index,
                method_order(bases, dotted(module, local.take(i))),
                local.skip(i + 1),
                1,
            );
        }
    }
}

proof fn lemma_same_first_verdict(
    resolver: ResolverView,
    index: Option<Set<Seq<char>>>,
    classes: Seq<Seq<char>>,
    method: Seq<char>,
    i: int,
)
    ensures
        (ResolverView { globally_safe: index, ..resolver }).first_verdict(classes, method, i)
            == resolver.first_verdict(classes, method, i),
    decreases classes.len() - i,
{
    if i < classes.len() {
        lemma_same_first_verdict(resolver, index, classes, method, i + 1);
    }
}

} // verus!
