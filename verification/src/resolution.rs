//! What the program-wide resolution is asked, and what it answers.
use vstd::prelude::*;

use crate::names::views;
use crate::names::ModuleName;
use crate::names::NameMap;
use crate::names::NameSet;
use crate::resolver::Verdicts;
use crate::safety::CandidateView;
use crate::safety::FunctionSafetyInfo;
use crate::safety::MutationCandidate;
use crate::text::chars_of;
use crate::text::strip_calls;
use crate::text::trim_calls;

verus! {

/// The name under which an error may be looked up without a module: that of its callee, unless
/// it is qualified.
pub open spec fn index_key(metadata: Seq<char>) -> Option<Seq<char>> {
    if strip_calls(metadata).contains('.') {
        None
    } else {
        Some(strip_calls(metadata))
    }
}

/// The name under which an error may be looked up without a module.
pub fn unqualified_index_key(metadata: &str) -> (r: Option<&str>)
    ensures
        r is Some <==> index_key(metadata@) is Some,
        r matches Some(name) ==> index_key(metadata@) == Some(name@),
{
    let name = trim_calls(metadata);
    let chars = chars_of(name);
    for i in 0..chars.len()
        invariant
            chars@ == name@,
            name@ == strip_calls(metadata@),
            forall|j: int| 0 <= j < i ==> chars@[j] != '.',
    {
        if chars[i] == '.' {
            assert(name@.contains('.'));
            return None;
        }
    }
    Some(name)
}

/// What is asked of the resolution.
pub struct ResolutionRequest {
    /// The modules of the program.
    pub module_names: NameSet,
    /// The verdicts on their functions.
    pub verdicts: NameMap<NameMap<FunctionSafetyInfo>>,
    /// The calls of each module whose safety hangs on other modules.
    pub candidates: Vec<(ModuleName, Vec<MutationCandidate>)>,
    /// The names that may be looked up without a module.
    pub needed_unqualified: NameSet,
}

/// What a [`ResolutionRequest`] records.
pub struct RequestView {
    pub module_names: Set<Seq<char>>,
    pub verdicts: Map<Seq<char>, Verdicts>,
    pub candidates: Seq<(Seq<char>, Seq<CandidateView>)>,
    pub needed_unqualified: Set<Seq<char>>,
}

/// The views of pairs of a module and its candidates.
pub open spec fn candidate_views(entries: Seq<(ModuleName, Vec<MutationCandidate>)>) -> Seq<
    (Seq<char>, Seq<CandidateView>),
> {
    Seq::new(entries.len(), |i: int| (entries[i].0@, views(entries[i].1@)))
}

impl View for ResolutionRequest {
    type V = RequestView;

    open spec fn view(&self) -> RequestView {
        RequestView {
            module_names: self.module_names@,
            verdicts: self.verdicts@,
            candidates: candidate_views(self.candidates@),
            needed_unqualified: self.needed_unqualified@,
        }
    }
}

/// What the resolution has found.
pub struct ResolutionOutcome {
    /// The functions whose verdict it raised to `Safe`.
    pub promoted: NameSet,
    /// The names that are safe in every module that defines them.
    pub globally_safe: NameSet,
    /// Whether a mutation candidate was found safe.
    pub resolved_to_safe: bool,
}

/// What a [`ResolutionOutcome`] records.
pub struct OutcomeView {
    pub promoted: Set<Seq<char>>,
    pub globally_safe: Set<Seq<char>>,
    pub resolved_to_safe: bool,
}

impl OutcomeView {
    /// Whether anything was proved safe that was not before.
    pub open spec fn has_evidence(self) -> bool {
        self.promoted != Set::<Seq<char>>::empty() || self.resolved_to_safe
    }
}

impl View for ResolutionOutcome {
    type V = OutcomeView;

    open spec fn view(&self) -> OutcomeView {
        OutcomeView {
            promoted: self.promoted@,
            globally_safe: self.globally_safe@,
            resolved_to_safe: self.resolved_to_safe,
        }
    }
}

impl ResolutionOutcome {
    /// Whether anything was proved safe that was not before.
    pub fn has_evidence(&self) -> (r: bool)
        ensures
            r == self@.has_evidence(),
    {
        !self.promoted.is_empty() || self.resolved_to_safe
    }
}

/// What the resolution answers.
pub struct ResolutionReply {
    /// The verdicts as they stand now.
    pub verdicts: NameMap<NameMap<FunctionSafetyInfo>>,
    pub outcome: ResolutionOutcome,
    /// The calls found to mutate an imported variable, each with the module that makes it.
    pub emitted: Vec<(ModuleName, String)>,
}

/// What a [`ResolutionReply`] records.
pub struct ReplyView {
    pub verdicts: Map<Seq<char>, Verdicts>,
    pub outcome: OutcomeView,
    pub emitted: Seq<(Seq<char>, Seq<char>)>,
}

/// The views of pairs of a module and what an error there speaks of.
pub open spec fn emitted_views(entries: Seq<(ModuleName, String)>) -> Seq<(Seq<char>, Seq<char>)> {
    Seq::new(entries.len(), |i: int| (entries[i].0@, entries[i].1@))
}

impl View for ResolutionReply {
    type V = ReplyView;

    open spec fn view(&self) -> ReplyView {
        ReplyView {
            verdicts: self.verdicts@,
            outcome: self.outcome@,
            emitted: emitted_views(self.emitted@),
        }
    }
}

} // verus!
