//! Verdicts on functions and modules.
use vstd::prelude::*;

use crate::names::lemma_views_push;
use crate::names::views;
use crate::names::ModuleName;
use crate::names::NameSet;

verus! {

/// What may be said of running a function while a module is imported.
#[derive(Debug, Clone, Copy, PartialEq, Eq, Structural)]
pub enum FunctionSafety {
    /// It has no effect that another module could see.
    Safe,
    /// It is safe only inside the module that defines it.
    UnsafeIfImported,
    /// It is not safe.
    Unsafe,
}

impl FunctionSafety {
    /// How much is held against the function.
    pub open spec fn severity(self) -> int {
        match self {
            FunctionSafety::Safe => 0,
            FunctionSafety::UnsafeIfImported => 1,
            FunctionSafety::Unsafe => 2,
        }
    }

    /// The worse of two verdicts.
    pub open spec fn worse(self, other: FunctionSafety) -> FunctionSafety {
        if self.severity() >= other.severity() {
            self
        } else {
            other
        }
    }

    /// Whether the verdict is `Safe`.
    pub fn is_safe(self) -> (r: bool)
        ensures
            r == (self == FunctionSafety::Safe),
    {
        match self {
            FunctionSafety::Safe => true,
            _ => false,
        }
    }

    /// The worse of two verdicts.
    pub fn join(self, other: FunctionSafety) -> (r: FunctionSafety)
        ensures
            r == self.worse(other),
    {
        match (self, other) {
            (FunctionSafety::Unsafe, _) => self,
            (_, FunctionSafety::Unsafe) => other,
            (FunctionSafety::UnsafeIfImported, _) => self,
            _ => other,
        }
    }
}

/// What a [`FunctionSafetyInfo`] records.
pub struct SafetyFacts {
    pub verdict: FunctionSafety,
    pub concerns: Set<Seq<char>>,
}

impl SafetyFacts {
    /// The worse of the two verdicts, with the concerns of both.
    pub open spec fn join(self, other: SafetyFacts) -> SafetyFacts {
        SafetyFacts {
            verdict: self.verdict.worse(other.verdict),
            concerns: self.concerns.union(other.concerns),
        }
    }
}

/// The verdict on one function, with the concerns it rests on.
pub struct FunctionSafetyInfo {
    pub verdict: FunctionSafety,
    pub concerns: NameSet,
}

impl View for FunctionSafetyInfo {
    type V = SafetyFacts;

    open spec fn view(&self) -> SafetyFacts {
        SafetyFacts { verdict: self.verdict, concerns: self.concerns@ }
    }
}

impl Clone for FunctionSafetyInfo {
    fn clone(&self) -> (r: Self)
        ensures
            r@ == self@,
    {
        FunctionSafetyInfo { verdict: self.verdict, concerns: self.concerns.clone() }
    }
}

impl FunctionSafetyInfo {
    /// A verdict with no concern beside it.
    pub fn new(verdict: FunctionSafety) -> (r: Self)
        ensures
            r@ == (SafetyFacts { verdict, concerns: Set::empty() }),
    {
        FunctionSafetyInfo { verdict, concerns: NameSet::new() }
    }

    /// Takes over what `incoming` holds against the function; tells whether anything
    /// changed.
    pub fn merge_ref(&mut self, incoming: &FunctionSafetyInfo) -> (changed: bool)
        ensures
            final(self)@ == old(self)@.join(incoming@),
            changed == (final(self)@ != old(self)@),
    {
        let verdict = self.verdict.join(incoming.verdict);
        let before = self.concerns.clone();
        let mut concerns = self.concerns.clone();
        concerns.extend_with(&incoming.concerns);
        let same_concerns = concerns.same(&before);
        let changed = verdict != self.verdict || !same_concerns;
        *self = FunctionSafetyInfo { verdict, concerns };
        changed
    }

    /// Takes over what `incoming` holds against the function.
    pub fn merge(&mut self, incoming: FunctionSafetyInfo)
        ensures
            final(self)@ == old(self)@.join(incoming@),
    {
        self.merge_ref(&incoming);
    }
}

/// Joining is the least step up that covers both sides.
pub proof fn lemma_join(a: SafetyFacts, b: SafetyFacts)
    ensures
        a.join(b).verdict.severity() >= a.verdict.severity(),
        a.join(b).verdict.severity() >= b.verdict.severity(),
        a.join(b).verdict.severity() == a.verdict.severity() || a.join(b).verdict.severity()
            == b.verdict.severity(),
        a.join(b).concerns == a.concerns.union(b.concerns),
        a.join(b) == b.join(a),
        a.join(a) == a,
{
    assert(a.join(b).concerns =~= b.join(a).concerns);
    assert(a.join(a).concerns =~= a.concerns);
}

/// Joining three verdicts, the grouping does not matter.
pub proof fn lemma_join_associative(a: SafetyFacts, b: SafetyFacts, c: SafetyFacts)
    ensures
        a.join(b).join(c) == a.join(b.join(c)),
{
    assert(a.join(b).join(c).concerns =~= a.join(b.join(c)).concerns);
}

/// The arguments of a call that are imported variables.
#[derive(Debug, PartialEq, Eq)]
pub struct ImportedArgs {
    pub positions: Vec<usize>,
    pub keywords: Vec<String>,
}

impl View for ImportedArgs {
    type V = (Seq<usize>, Seq<Seq<char>>);

    open spec fn view(&self) -> (Seq<usize>, Seq<Seq<char>>) {
        (self.positions@, views(self.keywords@))
    }
}

impl Default for ImportedArgs {
    fn default() -> (r: Self)
        ensures
            r@ == (Seq::<usize>::empty(), Seq::<Seq<char>>::empty()),
    {
        let r = ImportedArgs { positions: Vec::new(), keywords: Vec::new() };
        assert(views(r.keywords@) =~= Seq::<Seq<char>>::empty());
        r
    }
}

impl Clone for ImportedArgs {
    fn clone(&self) -> (r: Self)
        ensures
            r@ == self@,
    {
        let mut positions: Vec<usize> = Vec::new();
        for i in 0..self.positions.len()
            invariant
                positions@ == self.positions@.take(i as int),
        {
            positions.push(self.positions[i]);
            assert(self.positions@.take(i + 1) =~= self.positions@.take(i as int).push(
                self.positions@[i as int],
            ));
        }
        let mut keywords: Vec<String> = Vec::new();
        for i in 0..self.keywords.len()
            invariant
                views(keywords@) == views(self.keywords@).take(i as int),
        {
            let keyword = self.keywords[i].clone();
            proof {
                lemma_views_push(keywords@, keyword);
                assert(views(self.keywords@).take(i + 1) =~= views(self.keywords@).take(
                    i as int,
                ).push(keyword@));
            }
            keywords.push(keyword);
        }
        assert(positions@ =~= self.positions@);
        assert(views(keywords@) =~= views(self.keywords@));
        ImportedArgs { positions, keywords }
    }
}

impl ImportedArgs {
    /// Whether both name the same arguments.
    pub fn same(&self, other: &ImportedArgs) -> (r: bool)
        ensures
            r == (self@ == other@),
    {
        let n = self.positions.len();
        let m = self.keywords.len();
        if n != other.positions.len() || m != other.keywords.len() {
            assert(self@.0.len() != other@.0.len() || self@.1.len() != other@.1.len());
            return false;
        }
        for i in 0..n
            invariant
                n == self.positions@.len(),
                n == other.positions@.len(),
                forall|j: int| 0 <= j < i ==> self.positions@[j] == other.positions@[j],
        {
            if self.positions[i] != other.positions[i] {
                return false;
            }
        }
        for i in 0..m
            invariant
                m == self.keywords@.len(),
                m == other.keywords@.len(),
                forall|j: int|
                    0 <= j < i ==> views(self.keywords@)[j] == views(other.keywords@)[j],
        {
            if self.keywords[i] != other.keywords[i] {
                assert(views(self.keywords@)[i as int] != views(other.keywords@)[i as int]);
                return false;
            }
        }
        assert(self@.0 =~= other@.0);
        assert(self@.1 =~= other@.1);
        true
    }
}

/// Where a call that may mutate an imported variable stands.
#[derive(Debug, PartialEq, Eq)]
pub enum MutationCandidateSite {
    /// The module's own scope.
    ModuleScope { call: ModuleName },
    /// The body of a function.
    FunctionScope { function: ModuleName, call: ModuleName },
}

/// What a [`MutationCandidateSite`] records.
pub enum SiteView {
    ModuleScope { call: Seq<char> },
    FunctionScope { function: Seq<char>, call: Seq<char> },
}

impl View for MutationCandidateSite {
    type V = SiteView;

    open spec fn view(&self) -> SiteView {
        match self {
            MutationCandidateSite::ModuleScope { call } => SiteView::ModuleScope { call: call@ },
            MutationCandidateSite::FunctionScope { function, call } => SiteView::FunctionScope {
                function: function@,
                call: call@,
            },
        }
    }
}

impl Clone for MutationCandidateSite {
    fn clone(&self) -> (r: Self)
        ensures
            r@ == self@,
    {
        match self {
            MutationCandidateSite::ModuleScope { call } => MutationCandidateSite::ModuleScope {
                call: call.clone(),
            },
            MutationCandidateSite::FunctionScope { function, call } => {
                MutationCandidateSite::FunctionScope {
                    function: function.clone(),
                    call: call.clone(),
                }
            },
        }
    }
}

impl MutationCandidateSite {
    /// Whether both are the same place.
    pub fn same(&self, other: &MutationCandidateSite) -> (r: bool)
        ensures
            r == (self@ == other@),
    {
        match (self, other) {
            (
                MutationCandidateSite::ModuleScope { call: a },
                MutationCandidateSite::ModuleScope { call: b },
            ) => a.same(b),
            (
                MutationCandidateSite::FunctionScope { function: f, call: a },
                MutationCandidateSite::FunctionScope { function: g, call: b },
            ) => f.same(g) && a.same(b),
            _ => false,
        }
    }
}

/// A call whose safety hangs on whether its callee mutates the imported variables handed
/// to it.
#[derive(Debug, PartialEq, Eq)]
pub struct MutationCandidate {
    pub callee: ModuleName,
    pub site: MutationCandidateSite,
    pub arg_offset: usize,
    pub imported_args: ImportedArgs,
}

/// What a [`MutationCandidate`] records.
pub struct CandidateView {
    pub callee: Seq<char>,
    pub site: SiteView,
    pub arg_offset: usize,
    pub imported_args: (Seq<usize>, Seq<Seq<char>>),
}

impl View for MutationCandidate {
    type V = CandidateView;

    open spec fn view(&self) -> CandidateView {
        CandidateView {
            callee: self.callee@,
            site: self.site@,
            arg_offset: self.arg_offset,
            imported_args: self.imported_args@,
        }
    }
}

impl Clone for MutationCandidate {
    fn clone(&self) -> (r: Self)
        ensures
            r@ == self@,
    {
        MutationCandidate {
            callee: self.callee.clone(),
            site: self.site.clone(),
            arg_offset: self.arg_offset,
            imported_args: self.imported_args.clone(),
        }
    }
}

impl MutationCandidate {
    /// Whether both record the same call.
    pub fn same(&self, other: &MutationCandidate) -> (r: bool)
        ensures
            r == (self@ == other@),
    {
        self.callee.same(&other.callee) && self.site.same(&other.site) && self.arg_offset
            == other.arg_offset && self.imported_args.same(&other.imported_args)
    }
}

} // verus!
