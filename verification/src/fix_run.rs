//! What a run of the fixer does to files, and that a second run does nothing.
use vstd::prelude::*;
use vstd::utf8::encode_utf8;

use crate::declaration::declaration;
use crate::declaration::declares;
use crate::declaration::is_blank;
use crate::declaration::is_blank_between;
use crate::declaration::is_line_start;
use crate::declaration::lemma_declaration_is_found;
use crate::edits::edited;
use crate::edits::lemma_encode_injective;
use crate::edits::lemma_foremost_edit;
use crate::edits::lemma_sorted_edits_go_back_to_front;
use crate::edits::EditError;
use crate::edits::EditView;
use crate::edits::FileEdit;
use crate::fixer::chosen;
use crate::fixer::edited_files;
use crate::fixer::edits_for;
use crate::fixer::file_edits;
use crate::fixer::is_eligible;
use crate::fixer::is_read_again;
use crate::fixer::lemma_declaration_goes_first;
use crate::fixer::lemma_edited_files;
use crate::fixer::lemma_fixed_statements_stay;
use crate::fixer::module_edits;
use crate::fixer::offsets_of;
use crate::fixer::OccurrenceView;
use crate::fixer::RulesView;
use crate::fixer::SourceView;
use crate::fixer::TargetVersion;
use crate::order::is_stable_sort_of;
use crate::order::lemma_stable_sort_members;

verus! {

/// Whether `after` is `text` with the edits made from back to front.
pub open spec fn edits_made(text: Seq<char>, edits: Seq<EditView>, after: Seq<char>) -> bool {
    exists|sorted: Seq<EditView>| #[trigger]
        is_stable_sort_of::<FileEdit>(sorted, edits) && edited(encode_utf8(text), sorted) == Ok::<
            Seq<u8>,
            EditError,
        >(encode_utf8(after))
}

/// Whether the edits can be made in `text`.
pub open spec fn can_be_made(text: Seq<char>, edits: Seq<EditView>) -> bool {
    exists|after: Seq<char>| edits_made(text, edits, after)
}

/// Whether `after` is what a file of this text holds once its edits are made. A file in which they
/// cannot be made stays as it is.
pub open spec fn is_rewritten(text: Seq<char>, edits: Seq<EditView>, after: Seq<char>) -> bool {
    edits_made(text, edits, after) || (!can_be_made(text, edits) && after == text)
}

/// Whether a run over the modules turns the files `texts` into `after`.
pub open spec fn is_run(
    rules: RulesView,
    sources: Seq<SourceView>,
    texts: Map<u64, Seq<char>>,
    after: Map<u64, Seq<char>>,
) -> bool {
    &&& after.dom() == texts.dom()
    &&& forall|file: u64| #[trigger]
        texts.contains_key(file) ==> is_rewritten(
            texts[file],
            file_edits(rules, sources, file),
            after[file],
        )
}

/// Whether the module comes with the text of its file, where that text is needed. A file that is
/// not among `texts` cannot be read.
pub open spec fn comes_with_text(
    rules: RulesView,
    source: SourceView,
    texts: Map<u64, Seq<char>>,
) -> bool {
    rules.target_version == TargetVersion::Py314 && chosen(
        rules,
        source.name,
        source.occurrences,
    ).len() > 0 ==> match source.file {
        Some(file) => source.content == (if texts.contains_key(file) {
            Some(texts[file])
        } else {
            None
        }),
        None => true,
    }
}

/// Whether `again` is the module as it is read after a run over `sources` on the files `texts`.
pub open spec fn is_module_read_again(
    rules: RulesView,
    sources: Seq<SourceView>,
    texts: Map<u64, Seq<char>>,
    source: SourceView,
    again: SourceView,
) -> bool {
    &&& again.name == source.name
    &&& again.file == source.file
    &&& match source.file {
        Some(file) => if texts.contains_key(file) && can_be_made(
            texts[file],
            file_edits(rules, sources, file),
        ) {
            is_read_again(
                source.occurrences,
                file_edits(rules, sources, file),
                again.occurrences,
            )
        } else {
            again.occurrences == source.occurrences
        },
        None => again.occurrences == source.occurrences,
    }
}

/// Whether nothing but blanks stands before the offset on its line.
pub open spec fn stands_first(text: Seq<char>, offset: u32) -> bool {
    exists|s: int, at: int| stands_first_at(text, offset, s, at)
}

/// Whether the offset is that of the character `at`, on the line that begins at `s`, with nothing
/// but blanks before it.
pub open spec fn stands_first_at(text: Seq<char>, offset: u32, s: int, at: int) -> bool {
    &&& is_line_start(text, s)
    &&& s <= at <= text.len()
    &&& is_blank_between(text, s, at)
    &&& encode_utf8(text.take(at)).len() == offset
}

/// Whether every import statement of the module stands first on its line.
pub open spec fn imports_stand_first(source: SourceView, texts: Map<u64, Seq<char>>) -> bool {
    match source.file {
        Some(file) => texts.contains_key(file) ==> forall|j: int|
            0 <= j < source.occurrences.len() ==> stands_first(
                texts[file],
                (#[trigger] source.occurrences[j]).offset,
            ),
        None => true,
    }
}

/// Whether the edit puts a declaration first on a line of `text`.
spec fn declares_first(text: Seq<char>, edit: EditView) -> bool {
    &&& exists|names: Seq<Seq<char>>| edit.text == #[trigger] declaration(names)
    &&& stands_first(text, edit.offset)
}

proof fn lemma_file_holds_module_edits(
    rules: RulesView,
    sources: Seq<SourceView>,
    file: u64,
    i: int,
    k: int,
)
    requires
        0 <= i < sources.len(),
        sources[i].file == Some(file),
        0 <= k < module_edits(rules, sources[i]).len(),
    ensures
        file_edits(rules, sources, file).contains(module_edits(rules, sources[i])[k]),
    decreases sources.len(),
{
    let shorter = sources.drop_last();
    let before = file_edits(rules, shorter, file);
    let edit = module_edits(rules, sources[i])[k];
    let all = file_edits(rules, sources, file);
    if i < shorter.len() {
        assert(shorter[i] == sources[i]);
        lemma_file_holds_module_edits(rules, shorter, file, i, k);
        let p = before.index_of(edit);
        assert(before[p] == edit);
        assert(all[p] == edit);
    } else {
        assert(all[before.len() + k] == edit);
    }
}

proof fn lemma_no_file_edits(rules: RulesView, sources: Seq<SourceView>, file: u64)
    requires
        forall|i: int|
            0 <= i < sources.len() && (#[trigger] sources[i]).file == Some(file) ==> module_edits(
                rules,
                sources[i],
            ).len() == 0,
    ensures
        file_edits(rules, sources, file).len() == 0,
    decreases sources.len(),
{
    if sources.len() > 0 {
        let shorter = sources.drop_last();
        assert forall|i: int|
            0 <= i < shorter.len() && (#[trigger] shorter[i]).file == Some(
                file,
            ) implies module_edits(rules, shorter[i]).len() == 0 by {
            assert(shorter[i] == sources[i]);
        }
        lemma_no_file_edits(rules, shorter, file);
        assert(sources[sources.len() - 1] == sources.last());
    }
}

proof fn lemma_same_file_edits(
    rules: RulesView,
    a: Seq<SourceView>,
    b: Seq<SourceView>,
    file: u64,
)
    requires
        a.len() == b.len(),
        forall|i: int|
            0 <= i < a.len() ==> (#[trigger] a[i]).file == b[i].file && (a[i].file == Some(file)
                ==> module_edits(rules, a[i]) == module_edits(rules, b[i])),
    ensures
        file_edits(rules, a, file) == file_edits(rules, b, file),
    decreases a.len(),
{
    if a.len() > 0 {
        let x = a.drop_last();
        let y = b.drop_last();
        assert forall|i: int| 0 <= i < x.len() implies (#[trigger] x[i]).file == y[i].file && (
        x[i].file == Some(file) ==> module_edits(rules, x[i]) == module_edits(rules, y[i])) by {
            assert(x[i] == a[i] && y[i] == b[i]);
        }
        lemma_same_file_edits(rules, x, y, file);
        assert(a[a.len() - 1] == a.last() && b[b.len() - 1] == b.last());
    }
}

/// No edits leave a text as it is.
proof fn lemma_no_edits(text: Seq<char>, edits: Seq<EditView>, after: Seq<char>)
    requires
        edits.len() == 0,
        is_rewritten(text, edits, after),
    ensures
        after == text,
{
    if edits_made(text, edits, after) {
        let sorted = choose|sorted: Seq<EditView>| #[trigger]
            is_stable_sort_of::<FileEdit>(sorted, edits) && edited(encode_utf8(text), sorted)
                == Ok::<Seq<u8>, EditError>(encode_utf8(after));
        assert(sorted.len() == 0);
        lemma_encode_injective(text, after);
    }
}

/// For 3.14, the edits of a module put a declaration before its first import.
proof fn lemma_module_declares_first(
    rules: RulesView,
    source: SourceView,
    text: Seq<char>,
    k: int,
)
    requires
        rules.target_version == TargetVersion::Py314,
        forall|j: int|
            0 <= j < source.occurrences.len() ==> stands_first(
                text,
                (#[trigger] source.occurrences[j]).offset,
            ),
        0 <= k < module_edits(rules, source).len(),
    ensures
        declares_first(text, module_edits(rules, source)[k]),
{
    let found = chosen(rules, source.name, source.occurrences);
    let edit = module_edits(rules, source)[k];
    let pred = |occurrence: OccurrenceView|
        is_eligible(
            source.occurrences,
            rules.lazy_eligible,
            rules.target_version,
            occurrence,
        );
    lemma_declaration_goes_first(found, 0);
    assert(edit == edits_for(found, TargetVersion::Py314, None)[0]);
    let j = offsets_of(found).index_of(edit.offset);
    assert(found[j].offset == edit.offset);
    assert(found.contains(found[j]));
    source.occurrences.lemma_filter_contains_rev(pred, found[j]);
    let i = source.occurrences.index_of(found[j]);
    assert(source.occurrences[i].offset == edit.offset);
    assert(stands_first(text, source.occurrences[i].offset));
}

proof fn lemma_file_declares_first(
    rules: RulesView,
    sources: Seq<SourceView>,
    file: u64,
    texts: Map<u64, Seq<char>>,
    k: int,
)
    requires
        rules.target_version == TargetVersion::Py314,
        texts.contains_key(file),
        forall|i: int|
            0 <= i < sources.len() ==> imports_stand_first(#[trigger] sources[i], texts),
        0 <= k < file_edits(rules, sources, file).len(),
    ensures
        declares_first(texts[file], file_edits(rules, sources, file)[k]),
    decreases sources.len(),
{
    if sources.len() > 0 {
        let shorter = sources.drop_last();
        let before = file_edits(rules, shorter, file);
        assert forall|i: int| 0 <= i < shorter.len() implies imports_stand_first(
            #[trigger] shorter[i],
            texts,
        ) by {
            assert(shorter[i] == sources[i]);
        }
        if k < before.len() {
            lemma_file_declares_first(rules, shorter, file, texts, k);
        } else {
            let last = sources[sources.len() - 1];
            assert(last == sources.last());
            assert(imports_stand_first(last, texts));
            lemma_module_declares_first(rules, last, texts[file], k - before.len());
        }
    }
}

/// For 3.14, the text that the edits of a file give declares `__lazy_modules__`, where every
/// import statement stood first on its line.
pub proof fn lemma_edited_text_declares(
    rules: RulesView,
    sources: Seq<SourceView>,
    file: u64,
    texts: Map<u64, Seq<char>>,
    after: Seq<char>,
)
    requires
        rules.target_version == TargetVersion::Py314,
        texts.contains_key(file),
        forall|i: int|
            0 <= i < sources.len() ==> imports_stand_first(#[trigger] sources[i], texts),
        file_edits(rules, sources, file).len() > 0,
        edits_made(texts[file], file_edits(rules, sources, file), after),
    ensures
        declares(after),
{
    let text = texts[file];
    let edits = file_edits(rules, sources, file);
    let sorted = choose|sorted: Seq<EditView>| #[trigger]
        is_stable_sort_of::<FileEdit>(sorted, edits) && edited(encode_utf8(text), sorted) == Ok::<
            Seq<u8>,
            EditError,
        >(encode_utf8(after));
    lemma_sorted_edits_go_back_to_front(sorted, edits);
    let last = sorted.last();
    assert(sorted.contains(sorted[sorted.len() - 1]));
    lemma_stable_sort_members::<FileEdit>(sorted, edits, last);
    let k = edits.index_of(last);
    assert(edits[k] == last);
    lemma_file_declares_first(rules, sources, file, texts, k);
    let names = choose|names: Seq<Seq<char>>| last.text == #[trigger] declaration(names);
    let (s, at) = choose|s: int, at: int| stands_first_at(text, last.offset, s, at);
    let tail = lemma_foremost_edit(text, sorted, after, at);
    let rest = text.take(at) + tail;
    assert(rest.take(at) =~= text.take(at));
    assert(rest.skip(at) =~= tail);
    assert forall|i: int| s <= i < at implies is_blank(#[trigger] rest[i]) by {
        assert(rest[i] == text[i]);
    }
    if s > 0 {
        assert(rest[s - 1] == text[s - 1]);
    }
    lemma_declaration_is_found(rest, names, s, at);
}

/// For 3.14, which imports are chosen hangs on what is imported alone.
proof fn lemma_chosen_by_targets(rules: RulesView, source: SourceView, again: SourceView)
    requires
        rules.target_version == TargetVersion::Py314,
        again.name == source.name,
        again.occurrences.len() == source.occurrences.len(),
        forall|i: int|
            0 <= i < again.occurrences.len() ==> (#[trigger] again.occurrences[i]).target
                == source.occurrences[i].target,
        chosen(rules, again.name, again.occurrences).len() > 0,
    ensures
        chosen(rules, source.name, source.occurrences).len() > 0,
{
    let before = source.occurrences;
    let after = again.occurrences;
    let pred = |occurrence: OccurrenceView|
        is_eligible(after, rules.lazy_eligible, rules.target_version, occurrence);
    let pred_before = |occurrence: OccurrenceView|
        is_eligible(before, rules.lazy_eligible, rules.target_version, occurrence);
    let found = after.filter(pred);
    assert(found == chosen(rules, again.name, after));
    after.lemma_filter_pred(pred, 0);
    assert(found.contains(found[0]));
    after.lemma_filter_contains_rev(pred, found[0]);
    let i = after.index_of(found[0]);
    assert(after[i] == found[0]);
    assert(pred_before(before[i]));
    before.lemma_filter_contains(pred_before, i);
    assert(before.filter(pred_before) == chosen(rules, source.name, before));
}

/// A module whose file was rewritten has no more edits.
proof fn lemma_module_stays(
    rules: RulesView,
    sources: Seq<SourceView>,
    texts: Map<u64, Seq<char>>,
    after: Map<u64, Seq<char>>,
    i: int,
    again: SourceView,
    file: u64,
)
    requires
        is_run(rules, sources, texts, after),
        0 <= i < sources.len(),
        sources[i].file == Some(file),
        texts.contains_key(file),
        can_be_made(texts[file], file_edits(rules, sources, file)),
        forall|j: int|
            0 <= j < sources.len() ==> comes_with_text(rules, #[trigger] sources[j], texts),
        rules.target_version == TargetVersion::Py314 ==> forall|j: int|
            0 <= j < sources.len() ==> imports_stand_first(#[trigger] sources[j], texts),
        is_module_read_again(rules, sources, texts, sources[i], again),
        comes_with_text(rules, again, after),
    ensures
        module_edits(rules, again).len() == 0,
{
    let source = sources[i];
    let edits = file_edits(rules, sources, file);
    match rules.target_version {
        TargetVersion::Py315 => {
            assert forall|k: int| 0 <= k < module_edits(rules, source).len() implies edits.contains(
                #[trigger] module_edits(rules, source)[k],
            ) by {
                lemma_file_holds_module_edits(rules, sources, file, i, k);
            }
            lemma_fixed_statements_stay(rules, source, edits, again);
        },
        TargetVersion::Py314 => {
            if chosen(rules, again.name, again.occurrences).len() > 0 {
                lemma_chosen_by_targets(rules, source, again);
                assert(after.contains_key(file)) by {
                    assert(after.dom().contains(file));
                }
                assert(again.content == Some(after[file]));
                if edits.len() > 0 {
                    lemma_edited_text_declares(rules, sources, file, texts, after[file]);
                } else {
                    lemma_no_edits(texts[file], edits, after[file]);
                    if module_edits(rules, source).len() > 0 {
                        lemma_file_holds_module_edits(rules, sources, file, i, 0);
                    }
                    assert(comes_with_text(rules, source, texts));
                    assert(declares(texts[file]));
                }
                assert(declares(after[file]));
            }
        },
    }
}

/// A second run of the fixer changes nothing. The files are first read as `texts`, a run turns
/// them into `after`, the modules are read again from these, and a run over them leaves every
/// file as it is: no file in which the edits were made has fixes again. For 3.14 every import
/// statement must stand first on its line to begin with.
pub proof fn lemma_second_run_changes_nothing(
    rules: RulesView,
    sources: Seq<SourceView>,
    texts: Map<u64, Seq<char>>,
    after: Map<u64, Seq<char>>,
    again: Seq<SourceView>,
    at_last: Map<u64, Seq<char>>,
)
    requires
        forall|i: int|
            0 <= i < sources.len() ==> comes_with_text(rules, #[trigger] sources[i], texts),
        rules.target_version == TargetVersion::Py314 ==> forall|i: int|
            0 <= i < sources.len() ==> imports_stand_first(#[trigger] sources[i], texts),
        is_run(rules, sources, texts, after),
        again.len() == sources.len(),
        forall|i: int|
            0 <= i < sources.len() ==> is_module_read_again(
                rules,
                sources,
                texts,
                sources[i],
                #[trigger] again[i],
            ) && comes_with_text(rules, again[i], after),
        is_run(rules, again, after, at_last),
    ensures
        at_last == after,
        forall|file: u64| #[trigger]
            texts.contains_key(file) && can_be_made(
                texts[file],
                file_edits(rules, sources, file),
            ) ==> !edited_files(rules, again).contains(file),
{
    assert forall|file: u64| #[trigger] after.contains_key(file) implies at_last[file]
        == after[file] && (can_be_made(texts[file], file_edits(rules, sources, file))
        ==> !edited_files(rules, again).contains(file)) by {
        assert(texts.dom().contains(file));
        assert(texts.contains_key(file));
        let edits = file_edits(rules, sources, file);
        if can_be_made(texts[file], edits) {
            assert forall|i: int|
                0 <= i < again.len() && (#[trigger] again[i]).file == Some(
                    file,
                ) implies module_edits(rules, again[i]).len() == 0 by {
                assert(is_module_read_again(rules, sources, texts, sources[i], again[i]));
                lemma_module_stays(rules, sources, texts, after, i, again[i], file);
            }
            lemma_no_file_edits(rules, again, file);
            lemma_edited_files(rules, again, file);
            lemma_no_edits(after[file], file_edits(rules, again, file), at_last[file]);
        } else {
            assert(after[file] == texts[file]);
            assert forall|i: int| 0 <= i < sources.len() implies (#[trigger] sources[i]).file
                == again[i].file && (sources[i].file == Some(file) ==> module_edits(
                rules,
                sources[i],
            ) == module_edits(rules, again[i])) by {
                assert(is_module_read_again(rules, sources, texts, sources[i], again[i]));
                assert(comes_with_text(rules, sources[i], texts));
                assert(comes_with_text(rules, again[i], after));
            }
            lemma_same_file_edits(rules, sources, again, file);
            assert(is_rewritten(after[file], edits, at_last[file]));
            assert(!edits_made(after[file], edits, at_last[file]));
        }
    }
    assert(at_last =~= after);
    assert forall|file: u64| #[trigger] texts.contains_key(file) && can_be_made(
        texts[file],
        file_edits(rules, sources, file),
    ) implies !edited_files(rules, again).contains(file) by {
        assert(after.dom().contains(file));
        assert(after.contains_key(file));
    }
}

} // verus!
