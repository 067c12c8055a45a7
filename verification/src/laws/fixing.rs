//! Laws of which edits make imports lazy.
use vstd::prelude::*;

use crate::declaration::declares;
use crate::fixer::chosen;
use crate::fixer::edited_files;
use crate::fixer::edits_for;
use crate::fixer::eligible;
use crate::fixer::file_edits;
use crate::fixer::is_blocked;
use crate::fixer::is_eligible;
use crate::fixer::module_edits;
use crate::fixer::offsets_of;
use crate::fixer::statements;
use crate::fixer::targets_of;
use crate::fixer::OccurrenceView;
use crate::fixer::RulesView;
use crate::fixer::SourceView;
use crate::fixer::TargetVersion;
use crate::laws::declaring::is_plain;
use crate::laws::declaring::lemma_declared_names;
use crate::laws::declaring::quoted_names;
use crate::laws::ordering::lemma_ordered_names;
use crate::laws::ordering::lemma_ordered_offsets;
use crate::names::ModuleName;
use crate::order::in_order;
use crate::text::text_before;

verus! {

/// Whether some occurrence is as `p` says.
pub open spec fn some_occurrence(
    occurrences: Seq<OccurrenceView>,
    p: spec_fn(OccurrenceView) -> bool,
) -> bool {
    exists|i: int| 0 <= i < occurrences.len() && p(#[trigger] occurrences[i])
}

/// Whether every occurrence is as `p` says.
pub open spec fn every_occurrence(
    occurrences: Seq<OccurrenceView>,
    p: spec_fn(OccurrenceView) -> bool,
) -> bool {
    forall|i: int| 0 <= i < occurrences.len() ==> p(#[trigger] occurrences[i])
}

/// For 3.15 each statement gets the keyword `lazy` once, from the front to the back.
pub proof fn lemma_keywords(
    occurrences: Seq<OccurrenceView>,
    content: Option<Seq<char>>,
    offset: u32,
    i: int,
    j: int,
)
    ensures
        ({
            let edits = edits_for(occurrences, TargetVersion::Py315, content);
            &&& (exists|k: int| 0 <= k < edits.len() && (#[trigger] edits[k]).offset == offset)
                <==> some_occurrence(occurrences, |o: OccurrenceView| o.offset == offset)
            &&& 0 <= i < edits.len() ==> edits[i].text == "lazy "@
            &&& 0 <= i < j < edits.len() ==> edits[i].offset < edits[j].offset
        }),
{
    let edits = edits_for(occurrences, TargetVersion::Py315, content);
    let offsets = statements(occurrences);
    lemma_ordered_offsets(offsets_of(occurrences));
    lemma_offsets_hold(occurrences, offset);
    assert(offsets.len() == edits.len());
    if exists|k: int| 0 <= k < edits.len() && (#[trigger] edits[k]).offset == offset {
        let k = choose|k: int| 0 <= k < edits.len() && (#[trigger] edits[k]).offset == offset;
        assert(offsets[k] == offset);
        assert(offsets.contains(offset));
    }
    if offsets.contains(offset) {
        let k = offsets.index_of(offset);
        assert(edits[k].offset == offset);
    }
    if 0 <= i < j < edits.len() {
        assert(offsets[i] < offsets[j]);
    }
}

proof fn lemma_offsets_hold(occurrences: Seq<OccurrenceView>, offset: u32)
    ensures
        offsets_of(occurrences).contains(offset) <==> some_occurrence(
            occurrences,
            |o: OccurrenceView| o.offset == offset,
        ),
{
    let p = |o: OccurrenceView| o.offset == offset;
    let offsets = offsets_of(occurrences);
    if offsets.contains(offset) {
        let i = offsets.index_of(offset);
        assert(p(occurrences[i]));
    }
    if some_occurrence(occurrences, p) {
        let i = choose|i: int| 0 <= i < occurrences.len() && p(#[trigger] occurrences[i]);
        assert(offsets[i] == offset);
    }
}

proof fn lemma_targets_hold(occurrences: Seq<OccurrenceView>, target: Seq<char>)
    ensures
        targets_of(occurrences).contains(target) <==> some_occurrence(
            occurrences,
            |o: OccurrenceView| o.target == target,
        ),
{
    let p = |o: OccurrenceView| o.target == target;
    let targets = targets_of(occurrences);
    if targets.contains(target) {
        let i = targets.index_of(target);
        assert(p(occurrences[i]));
    }
    if some_occurrence(occurrences, p) {
        let i = choose|i: int| 0 <= i < occurrences.len() && p(#[trigger] occurrences[i]);
        assert(targets[i] == target);
    }
}

/// For 3.14 there is one declaration, before the first of the imports, unless nothing is imported
/// or the text has one. The names that it quotes are the distinct targets in the order of their
/// characters.
pub proof fn lemma_declared_targets(
    occurrences: Seq<OccurrenceView>,
    content: Option<Seq<char>>,
    target: Seq<char>,
    i: int,
    j: int,
)
    requires
        every_occurrence(occurrences, |o: OccurrenceView| is_plain(o.target)),
    ensures
        ({
            let edits = edits_for(occurrences, TargetVersion::Py314, content);
            let declared = content matches Some(text) && declares(text);
            &&& occurrences.len() == 0 || declared ==> edits.len() == 0
            &&& occurrences.len() > 0 && !declared ==> {
                let offset = edits[0].offset;
                let names = quoted_names(edits[0].text);
                &&& edits.len() == 1
                &&& some_occurrence(occurrences, |o: OccurrenceView| o.offset == offset)
                &&& every_occurrence(occurrences, |o: OccurrenceView| o.offset >= offset)
                &&& names.contains(target) <==> some_occurrence(
                    occurrences,
                    |o: OccurrenceView| o.target == target,
                )
                &&& 0 <= i < j < names.len() ==> text_before(names[i], names[j])
            }
        }),
{
    let edits = edits_for(occurrences, TargetVersion::Py314, content);
    let declared = content matches Some(text) && declares(text);
    if occurrences.len() > 0 && !declared {
        let offsets = statements(occurrences);
        let targets = targets_of(occurrences);
        let names = in_order::<ModuleName>(targets.to_set());
        let offset = offsets[0];
        lemma_ordered_offsets(offsets_of(occurrences));
        lemma_ordered_names(targets);
        lemma_targets_hold(occurrences, target);
        let plain = |o: OccurrenceView| is_plain(o.target);
        assert forall|k: int| 0 <= k < names.len() implies is_plain(#[trigger] names[k]) by {
            assert(names.contains(names[k]));
            let t = targets.index_of(names[k]);
            assert(targets[t] == names[k]);
            assert(plain(occurrences[t]));
        }
        lemma_declared_names(names);
        assert(edits[0].text == crate::declaration::declaration(names));
        assert(offsets_of(occurrences)[0] == occurrences[0].offset);
        assert(offsets_of(occurrences).contains(occurrences[0].offset));
        assert(offsets.contains(occurrences[0].offset));
        assert(offsets.len() > 0);
        assert(offsets.contains(offset));
        lemma_offsets_hold(occurrences, offset);
        let behind = |o: OccurrenceView| o.offset >= offset;
        assert forall|k: int| 0 <= k < occurrences.len() implies behind(
            #[trigger] occurrences[k],
        ) by {
            assert(offsets_of(occurrences)[k] == occurrences[k].offset);
            assert(offsets_of(occurrences).contains(occurrences[k].offset));
            assert(offsets.contains(occurrences[k].offset));
            let at = offsets.index_of(occurrences[k].offset);
            if at > 0 {
                assert(offsets[0] < offsets[at]);
            }
        }
        if 0 <= i < j < names.len() {
            assert(text_before(names[i], names[j]));
        }
    }
}

/// Whether an import may become lazy by itself.
pub open spec fn is_ready(lazy_eligible: Set<Seq<char>>, o: OccurrenceView) -> bool {
    !o.is_lazy && lazy_eligible.contains(o.target)
}

/// Whether the occurrences are some of `all`, in the same order and as often.
pub open spec fn is_selection(
    occurrences: Seq<OccurrenceView>,
    all: Seq<OccurrenceView>,
) -> bool {
    exists|pred: spec_fn(OccurrenceView) -> bool| occurrences == #[trigger] all.filter(pred)
}

proof fn lemma_eligible_is_selection(
    occurrences: Seq<OccurrenceView>,
    lazy_eligible: Set<Seq<char>>,
    version: TargetVersion,
)
    ensures
        is_selection(eligible(occurrences, lazy_eligible, version), occurrences),
{
    let pred = |occurrence: OccurrenceView|
        is_eligible(occurrences, lazy_eligible, version, occurrence);
    assert(eligible(occurrences, lazy_eligible, version) == occurrences.filter(pred));
}

/// Of the imports, those are chosen whose target may be lazy; for 3.15 only where every import of
/// the statement may, and none is lazy already. They stay in their order.
pub proof fn lemma_eligible_imports(
    occurrences: Seq<OccurrenceView>,
    lazy_eligible: Set<Seq<char>>,
    o: OccurrenceView,
)
    ensures
        eligible(occurrences, lazy_eligible, TargetVersion::Py314).contains(o)
            <==> occurrences.contains(o) && lazy_eligible.contains(o.target),
        eligible(occurrences, lazy_eligible, TargetVersion::Py315).contains(o)
            <==> occurrences.contains(o) && every_occurrence(
            occurrences,
            |other: OccurrenceView| other.offset == o.offset ==> is_ready(lazy_eligible, other),
        ),
        is_selection(eligible(occurrences, lazy_eligible, TargetVersion::Py314), occurrences),
        is_selection(eligible(occurrences, lazy_eligible, TargetVersion::Py315), occurrences),
{
    lemma_eligible_is_selection(occurrences, lazy_eligible, TargetVersion::Py314);
    lemma_eligible_is_selection(occurrences, lazy_eligible, TargetVersion::Py315);
    lemma_eligible_holds(occurrences, lazy_eligible, TargetVersion::Py314, o);
    lemma_eligible_holds(occurrences, lazy_eligible, TargetVersion::Py315, o);
    let ready = |other: OccurrenceView|
        other.offset == o.offset ==> is_ready(lazy_eligible, other);
    if is_blocked(occurrences, lazy_eligible, o.offset) {
        let i = choose|i: int|
            0 <= i < occurrences.len() && (#[trigger] occurrences[i]).offset == o.offset && (
            occurrences[i].is_lazy || !lazy_eligible.contains(occurrences[i].target));
        assert(!ready(occurrences[i]));
    } else {
        assert forall|i: int| 0 <= i < occurrences.len() implies ready(
            #[trigger] occurrences[i],
        ) by {}
    }
    if occurrences.contains(o) && every_occurrence(occurrences, ready) {
        let i = occurrences.index_of(o);
        assert(occurrences[i] == o);
        assert(ready(occurrences[i]));
    }
}

proof fn lemma_eligible_holds(
    occurrences: Seq<OccurrenceView>,
    lazy_eligible: Set<Seq<char>>,
    version: TargetVersion,
    o: OccurrenceView,
)
    ensures
        eligible(occurrences, lazy_eligible, version).contains(o) <==> occurrences.contains(o)
            && is_eligible(occurrences, lazy_eligible, version, o),
{
    let pred = |occurrence: OccurrenceView|
        is_eligible(occurrences, lazy_eligible, version, occurrence);
    let kept = eligible(occurrences, lazy_eligible, version);
    assert(kept == occurrences.filter(pred));
    if occurrences.contains(o) && pred(o) {
        let i = occurrences.index_of(o);
        assert(occurrences[i] == o);
        occurrences.lemma_filter_contains(pred, i);
    }
    if kept.contains(o) {
        let i = kept.index_of(o);
        assert(kept[i] == o);
        occurrences.lemma_filter_pred(pred, i);
        occurrences.lemma_filter_contains_rev(pred, o);
    }
}

/// A module whose imports stay eager has none of them chosen; any other has its eligible ones.
pub proof fn lemma_chosen_imports(
    rules: RulesView,
    name: Seq<char>,
    occurrences: Seq<OccurrenceView>,
    o: OccurrenceView,
)
    ensures
        rules.load_imports_eagerly.contains(name) ==> chosen(rules, name, occurrences).len() == 0,
        !rules.load_imports_eagerly.contains(name) && rules.target_version == TargetVersion::Py314
            ==> (chosen(rules, name, occurrences).contains(o) <==> occurrences.contains(o)
            && rules.lazy_eligible.contains(o.target)),
        !rules.load_imports_eagerly.contains(name) && rules.target_version == TargetVersion::Py315
            ==> (chosen(rules, name, occurrences).contains(o) <==> occurrences.contains(o)
            && every_occurrence(
            occurrences,
            |other: OccurrenceView|
                other.offset == o.offset ==> is_ready(rules.lazy_eligible, other),
        )),
{
    lemma_eligible_imports(occurrences, rules.lazy_eligible, o);
}

/// For 3.15 a module gets the keyword at exactly the statements all of whose imports may be lazy
/// and none is, if it has a file and its imports need not stay eager.
pub proof fn lemma_module_keywords(
    rules: RulesView,
    source: SourceView,
    offset: u32,
    i: int,
    j: int,
)
    requires
        rules.target_version == TargetVersion::Py315,
    ensures
        ({
            let edits = module_edits(rules, source);
            &&& (exists|k: int| 0 <= k < edits.len() && (#[trigger] edits[k]).offset == offset)
                <==> {
                &&& source.file is Some
                &&& !rules.load_imports_eagerly.contains(source.name)
                &&& some_occurrence(source.occurrences, |o: OccurrenceView| o.offset == offset)
                &&& every_occurrence(
                    source.occurrences,
                    |o: OccurrenceView| o.offset == offset ==> is_ready(rules.lazy_eligible, o),
                )
            }
            &&& 0 <= i < edits.len() ==> edits[i].text == "lazy "@
            &&& 0 <= i < j < edits.len() ==> edits[i].offset < edits[j].offset
        }),
{
    let edits = module_edits(rules, source);
    let all = source.occurrences;
    let found = chosen(rules, source.name, all);
    let here = |o: OccurrenceView| o.offset == offset;
    let ready = |o: OccurrenceView| o.offset == offset ==> is_ready(rules.lazy_eligible, o);
    lemma_keywords(found, None, offset, i, j);
    if some_occurrence(found, here) {
        let k = choose|k: int| 0 <= k < found.len() && here(#[trigger] found[k]);
        let o = found[k];
        assert(found.contains(o));
        lemma_eligible_imports(all, rules.lazy_eligible, o);
        assert(!rules.load_imports_eagerly.contains(source.name));
        let at = all.index_of(o);
        assert(all[at] == o);
        assert(here(all[at]));
        let own = |other: OccurrenceView|
            other.offset == o.offset ==> is_ready(rules.lazy_eligible, other);
        assert(every_occurrence(all, own));
        assert forall|n: int| 0 <= n < all.len() implies ready(#[trigger] all[n]) by {
            assert(own(all[n]));
        }
    }
    if !rules.load_imports_eagerly.contains(source.name) && some_occurrence(all, here)
        && every_occurrence(all, ready) {
        let k = choose|k: int| 0 <= k < all.len() && here(#[trigger] all[k]);
        let o = all[k];
        assert(all.contains(o));
        lemma_eligible_imports(all, rules.lazy_eligible, o);
        let own = |other: OccurrenceView|
            other.offset == o.offset ==> is_ready(rules.lazy_eligible, other);
        assert forall|n: int| 0 <= n < all.len() implies own(#[trigger] all[n]) by {
            assert(ready(all[n]));
        }
        assert(every_occurrence(all, own));
        assert(found.contains(o));
        let at = found.index_of(o);
        assert(found[at] == o);
        assert(here(found[at]));
    }
}

/// For 3.14 a module gets a declaration exactly if it has a file that was read and declares
/// nothing, its imports need not stay eager, and some target may be lazy. The declaration names
/// the targets that may be lazy, and stands before the first import of one.
pub proof fn lemma_module_declaration(
    rules: RulesView,
    source: SourceView,
    target: Seq<char>,
    i: int,
    j: int,
)
    requires
        rules.target_version == TargetVersion::Py314,
        every_occurrence(source.occurrences, |o: OccurrenceView| is_plain(o.target)),
    ensures
        ({
            let edits = module_edits(rules, source);
            let lazy = |o: OccurrenceView| rules.lazy_eligible.contains(o.target);
            &&& edits.len() > 0 <==> {
                &&& source.file is Some
                &&& source.content matches Some(text)
                &&& !declares(text)
                &&& !rules.load_imports_eagerly.contains(source.name)
                &&& some_occurrence(source.occurrences, lazy)
            }
            &&& edits.len() > 0 ==> {
                let offset = edits[0].offset;
                let names = quoted_names(edits[0].text);
                &&& edits.len() == 1
                &&& some_occurrence(
                    source.occurrences,
                    |o: OccurrenceView|
                        rules.lazy_eligible.contains(o.target) && o.offset == offset,
                )
                &&& every_occurrence(
                    source.occurrences,
                    |o: OccurrenceView|
                        rules.lazy_eligible.contains(o.target) ==> o.offset >= offset,
                )
                &&& names.contains(target) <==> rules.lazy_eligible.contains(target)
                    && some_occurrence(
                    source.occurrences,
                    |o: OccurrenceView| o.target == target,
                )
                &&& 0 <= i < j < names.len() ==> text_before(names[i], names[j])
            }
        }),
{
    let all = source.occurrences;
    let found = chosen(rules, source.name, all);
    let edits = module_edits(rules, source);
    let lazy = |o: OccurrenceView| rules.lazy_eligible.contains(o.target);
    let plain = |o: OccurrenceView| is_plain(o.target);
    assert forall|k: int| 0 <= k < found.len() implies plain(#[trigger] found[k]) by {
        assert(found.contains(found[k]));
        lemma_eligible_imports(all, rules.lazy_eligible, found[k]);
        let at = all.index_of(found[k]);
        assert(all[at] == found[k]);
        assert(plain(all[at]));
    }
    lemma_declared_targets(found, source.content, target, i, j);
    assert(found.len() > 0 <==> !rules.load_imports_eagerly.contains(source.name)
        && some_occurrence(all, lazy)) by {
        if found.len() > 0 {
            assert(found.contains(found[0]));
            lemma_eligible_imports(all, rules.lazy_eligible, found[0]);
            let at = all.index_of(found[0]);
            assert(all[at] == found[0]);
            assert(lazy(all[at]));
        }
        if !rules.load_imports_eagerly.contains(source.name) && some_occurrence(all, lazy) {
            let k = choose|k: int| 0 <= k < all.len() && lazy(#[trigger] all[k]);
            assert(all.contains(all[k]));
            lemma_eligible_imports(all, rules.lazy_eligible, all[k]);
            assert(found.contains(all[k]));
        }
    }
    if edits.len() > 0 {
        let offset = edits[0].offset;
        let here = |o: OccurrenceView| o.offset == offset;
        let behind = |o: OccurrenceView| o.offset >= offset;
        let is_target = |o: OccurrenceView| o.target == target;
        let first = |o: OccurrenceView|
            rules.lazy_eligible.contains(o.target) && o.offset == offset;
        let later = |o: OccurrenceView|
            rules.lazy_eligible.contains(o.target) ==> o.offset >= offset;
        assert(edits == edits_for(found, TargetVersion::Py314, source.content));
        assert(some_occurrence(found, here));
        let k = choose|k: int| 0 <= k < found.len() && here(#[trigger] found[k]);
        assert(found.contains(found[k]));
        lemma_eligible_imports(all, rules.lazy_eligible, found[k]);
        let at = all.index_of(found[k]);
        assert(all[at] == found[k]);
        assert(first(all[at]));
        assert(every_occurrence(found, behind));
        assert forall|n: int| 0 <= n < all.len() implies later(#[trigger] all[n]) by {
            assert(all.contains(all[n]));
            lemma_eligible_imports(all, rules.lazy_eligible, all[n]);
            if rules.lazy_eligible.contains(all[n].target) {
                let m = found.index_of(all[n]);
                assert(found[m] == all[n]);
                assert(behind(found[m]));
            }
        }
        assert(some_occurrence(found, is_target) <==> rules.lazy_eligible.contains(target)
            && some_occurrence(all, is_target)) by {
            if some_occurrence(found, is_target) {
                let m = choose|m: int| 0 <= m < found.len() && is_target(#[trigger] found[m]);
                assert(found.contains(found[m]));
                lemma_eligible_imports(all, rules.lazy_eligible, found[m]);
                let n = all.index_of(found[m]);
                assert(all[n] == found[m]);
                assert(is_target(all[n]));
            }
            if rules.lazy_eligible.contains(target) && some_occurrence(all, is_target) {
                let n = choose|n: int| 0 <= n < all.len() && is_target(#[trigger] all[n]);
                assert(all.contains(all[n]));
                lemma_eligible_imports(all, rules.lazy_eligible, all[n]);
                let m = found.index_of(all[n]);
                assert(found[m] == all[n]);
                assert(is_target(found[m]));
            }
        }
    }
}

/// A file gets the edits of its modules, one behind another, and those of no other; a module
/// more adds its own. A file is one to edit exactly if a module of it has edits.
pub proof fn lemma_one_source_more(
    rules: RulesView,
    sources: Seq<SourceView>,
    next: SourceView,
    file: u64,
)
    ensures
        file_edits(rules, Seq::empty(), file).len() == 0,
        next.file == Some(file) ==> file_edits(rules, sources.push(next), file) == file_edits(
            rules,
            sources,
            file,
        ) + module_edits(rules, next),
        next.file != Some(file) ==> file_edits(rules, sources.push(next), file) == file_edits(
            rules,
            sources,
            file,
        ),
        edited_files(rules, Seq::empty()).len() == 0,
        edited_files(rules, sources.push(next)).contains(file) <==> edited_files(
            rules,
            sources,
        ).contains(file) || (next.file == Some(file) && module_edits(rules, next).len() > 0),
        edited_files(rules, sources).is_prefix_of(edited_files(rules, sources.push(next))),
{
    assert(sources.push(next).drop_last() =~= sources);
    let before = edited_files(rules, sources);
    let after = edited_files(rules, sources.push(next));
    if before.contains(file) {
        let i = before.index_of(file);
        assert(after[i] == file);
    }
    if after.contains(file) {
        let i = after.index_of(file);
        assert(after[i] == file);
        if i < before.len() {
            assert(before[i] == file);
        }
    }
    if next.file == Some(file) && module_edits(rules, next).len() > 0 {
        assert(after[before.len() as int] == file);
    }
}

} // verus!
