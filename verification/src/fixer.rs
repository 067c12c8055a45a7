//! Making eligible imports lazy.
use std::collections::HashMap;
use vstd::prelude::*;

use crate::declaration::declaration;
use crate::declaration::declares;
use crate::declaration::defines_lazy_modules;
use crate::declaration::is_blank_between;
use crate::declaration::is_line_start;
use crate::declaration::lazy_modules_declaration;
use crate::declaration::lemma_declaration_is_found;
use crate::edits::EditView;
use crate::edits::FileEdit;
use crate::names::absorb;
use crate::names::lemma_absorb;
use crate::names::lemma_views_push;
use crate::names::views;
use crate::names::ModuleName;
use crate::names::NameSet;
use crate::order::in_order;
use crate::order::is_stable_sort_of;
use crate::order::is_strictly_sorted;
use crate::order::lemma_in_order_members;
use crate::order::sort;
use crate::order::sort_dedup;
use crate::order::SortKey;
use crate::order::UniqueKey;

verus! {

/// The version of Python that the fixed source is for.
#[derive(Debug, Clone, Copy, PartialEq, Eq, Structural)]
pub enum TargetVersion {
    /// Lazy modules are named in a `__lazy_modules__` tuple.
    Py314,
    /// An import statement is lazy with a `lazy` keyword.
    Py315,
}

/// A name that an import statement brings in.
#[derive(Debug, PartialEq, Eq)]
pub struct ImportOccurrence {
    /// The module that is imported.
    pub target: ModuleName,
    /// Where the statement begins, in bytes.
    pub offset: u32,
    /// Whether the statement is a `from` import.
    pub is_import_from: bool,
    /// Whether the statement is lazy already.
    pub is_lazy: bool,
}

/// What an [`ImportOccurrence`] records.
pub struct OccurrenceView {
    pub target: Seq<char>,
    pub offset: u32,
    pub is_import_from: bool,
    pub is_lazy: bool,
}

impl View for ImportOccurrence {
    type V = OccurrenceView;

    open spec fn view(&self) -> OccurrenceView {
        OccurrenceView {
            target: self.target@,
            offset: self.offset,
            is_import_from: self.is_import_from,
            is_lazy: self.is_lazy,
        }
    }
}

impl SortKey for u32 {
    type Key = u32;

    open spec fn key(value: u32) -> u32 {
        value
    }

    open spec fn before(a: u32, b: u32) -> bool {
        a < b
    }

    proof fn irreflexive(a: u32) {
    }

    proof fn transitive(a: u32, b: u32, c: u32) {
    }

    proof fn total(a: u32, b: u32) {
    }

    fn is_before(&self, other: &Self) -> (r: bool) {
        *self < *other
    }
}

impl UniqueKey for u32 {
    proof fn key_tells_apart(a: u32, b: u32) {
    }
}

/// Where the statements begin.
pub open spec fn offsets_of(occurrences: Seq<OccurrenceView>) -> Seq<u32> {
    Seq::new(occurrences.len(), |i: int| occurrences[i].offset)
}

/// What is imported.
pub open spec fn targets_of(occurrences: Seq<OccurrenceView>) -> Seq<Seq<char>> {
    Seq::new(occurrences.len(), |i: int| occurrences[i].target)
}

/// The places where statements begin, each once, from the front.
pub open spec fn statements(occurrences: Seq<OccurrenceView>) -> Seq<u32> {
    in_order::<u32>(offsets_of(occurrences).to_set())
}

/// A `lazy` keyword for the statement at `offset`.
pub open spec fn keyword_edit(offset: u32) -> EditView {
    EditView { offset, text: "lazy "@ }
}

/// The edits that make the imports lazy. For 3.15 each statement gets one keyword, however many
/// names it imports. For 3.14 a tuple of the modules goes before the first statement, unless the
/// file declares one.
pub open spec fn edits_for(
    occurrences: Seq<OccurrenceView>,
    target_version: TargetVersion,
    content: Option<Seq<char>>,
) -> Seq<EditView> {
    match target_version {
        TargetVersion::Py315 => {
            let offsets = statements(occurrences);
            Seq::new(offsets.len(), |i: int| keyword_edit(offsets[i]))
        },
        TargetVersion::Py314 => {
            if occurrences.len() == 0 || (content matches Some(text) && declares(text)) {
                Seq::empty()
            } else {
                seq![
                    EditView {
                        offset: statements(occurrences)[0],
                        text: declaration(
                            in_order::<ModuleName>(targets_of(occurrences).to_set()),
                        ),
                    },
                ]
            }
        },
    }
}

/// Where the statements begin.
fn occurrence_offsets(occurrences: &[&ImportOccurrence]) -> (r: Vec<u32>)
    ensures
        r@ == offsets_of(views(occurrences@)),
{
    let mut r: Vec<u32> = Vec::new();
    for i in 0..occurrences.len()
        invariant
            r@ == offsets_of(views(occurrences@)).take(i as int),
    {
        r.push(occurrences[i].offset);
        assert(offsets_of(views(occurrences@)).take(i + 1) =~= offsets_of(
            views(occurrences@),
        ).take(i as int).push(occurrences@[i as int].offset));
    }
    assert(r@ =~= offsets_of(views(occurrences@)));
    r
}

/// What is imported.
fn occurrence_targets(occurrences: &[&ImportOccurrence]) -> (r: Vec<ModuleName>)
    ensures
        views(r@) == targets_of(views(occurrences@)),
{
    let mut r: Vec<ModuleName> = Vec::new();
    for i in 0..occurrences.len()
        invariant
            views(r@) == targets_of(views(occurrences@)).take(i as int),
    {
        let target = occurrences[i].target.clone();
        proof {
            lemma_views_push(r@, target);
            assert(targets_of(views(occurrences@)).take(i + 1) =~= targets_of(
                views(occurrences@),
            ).take(i as int).push(target@));
        }
        r.push(target);
    }
    assert(views(r@) =~= targets_of(views(occurrences@)));
    r
}

/// The edits that make the imports lazy.
pub fn edits_for_occurrences(
    occurrences: &[&ImportOccurrence],
    target_version: TargetVersion,
    content: Option<&str>,
) -> (r: Vec<FileEdit>)
    ensures
        views(r@) == edits_for(
            views(occurrences@),
            target_version,
            match content {
                Some(text) => Some(text@),
                None => None,
            },
        ),
{
    let ghost all = views(occurrences@);
    let raw = occurrence_offsets(occurrences);
    assert(views(raw@) =~= raw@);
    let offsets = sort_dedup(raw);
    assert(views(offsets@) =~= offsets@);
    assert(offsets@ == statements(all));
    let mut r: Vec<FileEdit> = Vec::new();
    match target_version {
        TargetVersion::Py315 => {
            let ghost goal = Seq::new(offsets@.len(), |i: int| keyword_edit(offsets@[i]));
            assert(views(r@) =~= goal.take(0));
            for i in 0..offsets.len()
                invariant
                    goal == Seq::new(offsets@.len(), |i: int| keyword_edit(offsets@[i])),
                    views(r@) == goal.take(i as int),
            {
                let edit = FileEdit { offset: offsets[i], text: "lazy ".to_owned() };
                proof {
                    lemma_views_push(r@, edit);
                    assert(goal.take(i + 1) =~= goal.take(i as int).push(edit@));
                }
                r.push(edit);
            }
            assert(goal.take(goal.len() as int) =~= goal);
        },
        TargetVersion::Py314 => {
            let declared = match content {
                Some(text) => defines_lazy_modules(text),
                None => false,
            };
            if declared || occurrences.len() == 0 {
                assert(views(r@) =~= Seq::<EditView>::empty());
                return r;
            }
            proof {
                assert(offsets_of(all).contains(offsets_of(all)[0]));
                assert(views(offsets@).to_set().contains(offsets_of(all)[0]));
                assert(views(offsets@).contains(offsets_of(all)[0]));
            }
            let targets = sort_dedup(occurrence_targets(occurrences));
            let edit = FileEdit { offset: offsets[0], text: lazy_modules_declaration(&targets) };
            r.push(edit);
            assert(views(r@) =~= seq![edit@]);
        },
    }
    r
}

/// Whether the statement at `offset` must stay as it is: it is lazy already, or one of the
/// modules that it imports is not eligible.
pub open spec fn is_blocked(
    occurrences: Seq<OccurrenceView>,
    lazy_eligible: Set<Seq<char>>,
    offset: u32,
) -> bool {
    exists|i: int|
        0 <= i < occurrences.len() && (#[trigger] occurrences[i]).offset == offset && (
        occurrences[i].is_lazy || !lazy_eligible.contains(occurrences[i].target))
}

/// Whether an import may be made lazy. A keyword speaks for the whole statement, so for 3.15 all
/// that the statement imports counts.
pub open spec fn is_eligible(
    occurrences: Seq<OccurrenceView>,
    lazy_eligible: Set<Seq<char>>,
    target_version: TargetVersion,
    occurrence: OccurrenceView,
) -> bool {
    &&& lazy_eligible.contains(occurrence.target)
    &&& target_version == TargetVersion::Py315 ==> !is_blocked(
        occurrences,
        lazy_eligible,
        occurrence.offset,
    )
}

/// The imports that may be made lazy.
pub open spec fn eligible(
    occurrences: Seq<OccurrenceView>,
    lazy_eligible: Set<Seq<char>>,
    target_version: TargetVersion,
) -> Seq<OccurrenceView> {
    occurrences.filter(
        |occurrence: OccurrenceView|
            is_eligible(occurrences, lazy_eligible, target_version, occurrence),
    )
}

fn holds_offset(offsets: &Vec<u32>, offset: u32) -> (r: bool)
    requires
        is_strictly_sorted::<u32>(offsets@),
    ensures
        r == offsets@.contains(offset),
{
    let mut low: usize = 0;
    let mut high: usize = offsets.len();
    while low < high
        invariant
            low <= high <= offsets@.len(),
            is_strictly_sorted::<u32>(offsets@),
            forall|i: int| 0 <= i < low ==> #[trigger] offsets@[i] < offset,
            forall|i: int| high <= i < offsets@.len() ==> #[trigger] offsets@[i] > offset,
        decreases high - low,
    {
        let middle = low + (high - low) / 2;
        let here = offsets[middle];
        if here == offset {
            assert(offsets@[middle as int] == offset);
            return true;
        }
        assert forall|i: int| 0 <= i < middle implies #[trigger] offsets@[i] < here by {
            assert(u32::before(u32::key(offsets@[i]), u32::key(offsets@[middle as int])));
        }
        assert forall|i: int| middle < i < offsets@.len() implies #[trigger] offsets@[i] > here by {
            assert(u32::before(u32::key(offsets@[middle as int]), u32::key(offsets@[i])));
        }
        if here < offset {
            low = middle + 1;
        } else {
            high = middle;
        }
    }
    false
}

/// The statements that must stay as they are.
fn blocked_offsets(occurrences: &Vec<ImportOccurrence>, lazy_eligible: &NameSet) -> (r: Vec<u32>)
    ensures
        is_strictly_sorted::<u32>(r@),
        forall|offset: u32| #[trigger]
            r@.contains(offset) <==> is_blocked(views(occurrences@), lazy_eligible@, offset),
{
    let ghost all = views(occurrences@);
    let mut found: Vec<u32> = Vec::new();
    for i in 0..occurrences.len()
        invariant
            all == views(occurrences@),
            forall|offset: u32| #[trigger]
                found@.contains(offset) <==> is_blocked(all.take(i as int), lazy_eligible@, offset),
    {
        let ghost before = found@;
        let occurrence = &occurrences[i];
        let blocks = occurrence.is_lazy || !lazy_eligible.contains(occurrence.target.as_str());
        if blocks {
            found.push(occurrence.offset);
        }
        proof {
            let now = all.take(i + 1);
            let was = all.take(i as int);
            assert(now[i as int] == occurrence@);
            assert forall|offset: u32| #[trigger]
                found@.contains(offset) <==> is_blocked(now, lazy_eligible@, offset) by {
                if before.contains(offset) {
                    assert(found@[before.index_of(offset)] == offset);
                    let j = choose|j: int|
                        0 <= j < was.len() && (#[trigger] was[j]).offset == offset && (
                        was[j].is_lazy || !lazy_eligible@.contains(was[j].target));
                    assert(now[j] == was[j]);
                }
                if blocks && offset == occurrence.offset {
                    assert(found@[before.len() as int] == offset);
                    assert(is_blocked(now, lazy_eligible@, offset));
                }
                if found@.contains(offset) && !before.contains(offset) {
                    let k = found@.index_of(offset);
                    if k < before.len() {
                        assert(before[k] == offset);
                    }
                }
                if is_blocked(now, lazy_eligible@, offset) {
                    let j = choose|j: int|
                        0 <= j < now.len() && (#[trigger] now[j]).offset == offset && (
                        now[j].is_lazy || !lazy_eligible@.contains(now[j].target));
                    if j < i {
                        assert(was[j] == now[j]);
                        assert(is_blocked(was, lazy_eligible@, offset));
                    }
                }
            }
        }
    }
    assert(all.take(all.len() as int) =~= all);
    let ghost all_found = found@;
    assert(views(found@) =~= found@);
    let r = sort_dedup(found);
    proof {
        assert(views(r@) =~= r@);
        assert forall|offset: u32| #[trigger] r@.contains(offset) <==> all_found.contains(
            offset,
        ) by {
            assert(r@.to_set().contains(offset) <==> all_found.to_set().contains(offset));
        }
    }
    r
}

/// The imports that may be made lazy.
pub fn eligible_occurrences<'a>(
    occurrences: &'a Vec<ImportOccurrence>,
    lazy_eligible: &NameSet,
    target_version: TargetVersion,
) -> (r: Vec<&'a ImportOccurrence>)
    ensures
        views(r@) == eligible(views(occurrences@), lazy_eligible@, target_version),
{
    let ghost all = views(occurrences@);
    let ghost pred = |occurrence: OccurrenceView|
        is_eligible(all, lazy_eligible@, target_version, occurrence);
    let blocked = if target_version == TargetVersion::Py315 {
        blocked_offsets(occurrences, lazy_eligible)
    } else {
        Vec::new()
    };
    let mut r: Vec<&'a ImportOccurrence> = Vec::new();
    proof {
        reveal(Seq::filter);
        assert(views(r@) =~= all.take(0).filter(pred));
    }
    for i in 0..occurrences.len()
        invariant
            all == views(occurrences@),
            pred == (|occurrence: OccurrenceView|
                is_eligible(all, lazy_eligible@, target_version, occurrence)),
            is_strictly_sorted::<u32>(blocked@),
            target_version == TargetVersion::Py315 ==> forall|offset: u32| #[trigger]
                blocked@.contains(offset) <==> is_blocked(all, lazy_eligible@, offset),
            views(r@) == all.take(i as int).filter(pred),
    {
        let occurrence = &occurrences[i];
        proof {
            assert(all.take(i + 1) =~= all.take(i as int).push(occurrence@));
            all.take(i as int).lemma_filter_push(occurrence@, pred);
            lemma_views_push(r@, occurrence);
        }
        if lazy_eligible.contains(occurrence.target.as_str()) {
            let stays = target_version == TargetVersion::Py315 && holds_offset(
                &blocked,
                occurrence.offset,
            );
            if !stays {
                assert(pred(occurrence@));
                r.push(occurrence);
            } else {
                assert(!pred(occurrence@));
            }
        } else {
            assert(!pred(occurrence@));
        }
    }
    assert(all.take(all.len() as int) =~= all);
    r
}

/// A module, with the imports in it, the file that it is in, and the text of that file if it
/// was read.
pub struct ModuleSource {
    pub name: ModuleName,
    pub occurrences: Vec<ImportOccurrence>,
    pub file: Option<u64>,
    pub content: Option<String>,
}

/// What a [`ModuleSource`] records.
pub struct SourceView {
    pub name: Seq<char>,
    pub occurrences: Seq<OccurrenceView>,
    pub file: Option<u64>,
    pub content: Option<Seq<char>>,
}

impl View for ModuleSource {
    type V = SourceView;

    open spec fn view(&self) -> SourceView {
        SourceView {
            name: self.name@,
            occurrences: views(self.occurrences@),
            file: self.file,
            content: match self.content {
                Some(text) => Some(text@),
                None => None,
            },
        }
    }
}

/// What decides which imports are made lazy.
pub struct FixRules {
    /// The modules whose imports stay eager.
    pub load_imports_eagerly: NameSet,
    /// The modules that may be imported lazily.
    pub lazy_eligible: NameSet,
    pub target_version: TargetVersion,
}

/// What a [`FixRules`] records.
pub struct RulesView {
    pub load_imports_eagerly: Set<Seq<char>>,
    pub lazy_eligible: Set<Seq<char>>,
    pub target_version: TargetVersion,
}

impl View for FixRules {
    type V = RulesView;

    open spec fn view(&self) -> RulesView {
        RulesView {
            load_imports_eagerly: self.load_imports_eagerly@,
            lazy_eligible: self.lazy_eligible@,
            target_version: self.target_version,
        }
    }
}

/// The imports of a module that are made lazy, but for a declaration that its file may have.
pub open spec fn chosen(
    rules: RulesView,
    name: Seq<char>,
    occurrences: Seq<OccurrenceView>,
) -> Seq<OccurrenceView> {
    if rules.load_imports_eagerly.contains(name) {
        Seq::empty()
    } else {
        eligible(occurrences, rules.lazy_eligible, rules.target_version)
    }
}

/// The edits for one module. A module without a file is not edited, nor is, for 3.14, one whose
/// file was not read.
pub open spec fn module_edits(rules: RulesView, source: SourceView) -> Seq<EditView> {
    let occurrences = chosen(rules, source.name, source.occurrences);
    if source.file is None || occurrences.len() == 0 {
        Seq::empty()
    } else {
        match rules.target_version {
            TargetVersion::Py314 => if source.content is None {
                Seq::empty()
            } else {
                edits_for(occurrences, TargetVersion::Py314, source.content)
            },
            TargetVersion::Py315 => edits_for(occurrences, TargetVersion::Py315, None),
        }
    }
}

impl FixRules {
    /// Whether the text of the module's file is needed to find its edits.
    pub fn needs_content(&self, name: &ModuleName, occurrences: &Vec<ImportOccurrence>) -> (r: bool)
        ensures
            r == (self@.target_version == TargetVersion::Py314 && chosen(
                self@,
                name@,
                views(occurrences@),
            ).len() > 0),
    {
        if self.target_version == TargetVersion::Py315 {
            return false;
        }
        if self.load_imports_eagerly.contains(name.as_str()) {
            return false;
        }
        let found = eligible_occurrences(occurrences, &self.lazy_eligible, self.target_version);
        found.len() > 0
    }

    /// The edits for one module.
    pub fn edits_for_module(&self, source: &ModuleSource) -> (r: Vec<FileEdit>)
        ensures
            views(r@) == module_edits(self@, source@),
    {
        let none: Vec<FileEdit> = Vec::new();
        assert(views(none@) =~= Seq::<EditView>::empty());
        if source.file.is_none() || self.load_imports_eagerly.contains(source.name.as_str()) {
            return none;
        }
        let found = eligible_occurrences(
            &source.occurrences,
            &self.lazy_eligible,
            self.target_version,
        );
        if found.len() == 0 {
            return none;
        }
        match self.target_version {
            TargetVersion::Py314 => match &source.content {
                Some(text) => edits_for_occurrences(
                    found.as_slice(),
                    TargetVersion::Py314,
                    Some(text.as_str()),
                ),
                None => none,
            },
            TargetVersion::Py315 => edits_for_occurrences(
                found.as_slice(),
                TargetVersion::Py315,
                None,
            ),
        }
    }
}

/// The edits of one file.
pub struct FileFixes {
    pub file: u64,
    pub edits: Vec<FileEdit>,
}

/// The edits of all modules in one file, module after module.
pub open spec fn file_edits(rules: RulesView, sources: Seq<SourceView>, file: u64) -> Seq<EditView>
    decreases sources.len(),
{
    if sources.len() == 0 {
        Seq::empty()
    } else {
        let before = file_edits(rules, sources.drop_last(), file);
        if sources.last().file == Some(file) {
            before + module_edits(rules, sources.last())
        } else {
            before
        }
    }
}

/// The files of the modules that have edits, module after module.
pub open spec fn edited_files(rules: RulesView, sources: Seq<SourceView>) -> Seq<u64>
    decreases sources.len(),
{
    if sources.len() == 0 {
        Seq::empty()
    } else {
        let before = edited_files(rules, sources.drop_last());
        match sources.last().file {
            Some(file) => if module_edits(rules, sources.last()).len() > 0 {
                before.push(file)
            } else {
                before
            },
            None => before,
        }
    }
}

/// The files of some fixes.
pub open spec fn files_of(fixes: Seq<FileFixes>) -> Seq<u64> {
    Seq::new(fixes.len(), |i: int| fixes[i].file)
}

/// Whether `index` tells where each file stands.
spec fn is_index(index: Map<u64, usize>, fixes: Seq<FileFixes>) -> bool {
    &&& forall|file: u64| #[trigger] index.contains_key(file) <==> files_of(fixes).contains(file)
    &&& forall|file: u64| #[trigger]
        index.contains_key(file) ==> index[file] < fixes.len() && fixes[index[file] as int].file
            == file
}

/// Whether the fixes hold the edits of all modules, file by file.
spec fn are_collected(rules: RulesView, sources: Seq<SourceView>, fixes: Seq<FileFixes>) -> bool {
    &&& files_of(fixes) == absorb(Seq::empty(), edited_files(rules, sources))
    &&& files_of(fixes).no_duplicates()
    &&& forall|file: u64|
        #![trigger file_edits(rules, sources, file)]
        !files_of(fixes).contains(file) ==> file_edits(rules, sources, file).len() == 0
    &&& forall|i: int|
        0 <= i < fixes.len() ==> views((#[trigger] fixes[i]).edits@) == file_edits(
            rules,
            sources,
            fixes[i].file,
        )
}

proof fn lemma_collected_further(
    rules: RulesView,
    sources: Seq<SourceView>,
    source: SourceView,
    fixes: Seq<FileFixes>,
    after: Seq<FileFixes>,
)
    requires
        are_collected(rules, sources, fixes),
        ({
            let edits = module_edits(rules, source);
            match source.file {
                Some(file) => if edits.len() == 0 {
                    after == fixes
                } else if files_of(fixes).contains(file) {
                    &&& after.len() == fixes.len()
                    &&& forall|i: int|
                        0 <= i < fixes.len() ==> (#[trigger] after[i]).file == fixes[i].file
                            && views(after[i].edits@) == (if fixes[i].file == file {
                            views(fixes[i].edits@) + edits
                        } else {
                            views(fixes[i].edits@)
                        })
                } else {
                    &&& after.len() == fixes.len() + 1
                    &&& after.drop_last() == fixes
                    &&& after.last().file == file
                    &&& views(after.last().edits@) == edits
                },
                None => after == fixes,
            }
        }),
    ensures
        are_collected(rules, sources.push(source), after),
{
    let all = sources.push(source);
    let edits = module_edits(rules, source);
    assert(all.drop_last() =~= sources);
    assert(all.last() == source);
    let files0 = edited_files(rules, sources);
    assert forall|file: u64|
        #![trigger file_edits(rules, all, file)]
        file_edits(rules, all, file) == (if source.file == Some(file) {
            file_edits(rules, sources, file) + edits
        } else {
            file_edits(rules, sources, file)
        }) by {}
    assert(source.file is None ==> edits.len() == 0);
    if edits.len() == 0 {
        assert forall|file: u64|
            #![trigger file_edits(rules, all, file)]
            file_edits(rules, all, file) == file_edits(rules, sources, file) by {
            assert(file_edits(rules, sources, file) + edits =~= file_edits(rules, sources, file));
        }
    } else {
        let file = source.file->0;
        assert(edited_files(rules, all) == files0.push(file));
        assert(files0.push(file).drop_last() =~= files0);
        assert(files0.push(file).last() == file);
        if files_of(fixes).contains(file) {
            assert(files_of(after) =~= files_of(fixes));
        } else {
            assert(files_of(after) =~= files_of(fixes).push(file));
            let n = fixes.len() as int;
            assert forall|other: u64| #[trigger] files_of(after).contains(other) <==> (files_of(
                fixes,
            ).contains(other) || other == file) by {
                if files_of(fixes).contains(other) {
                    assert(files_of(after)[files_of(fixes).index_of(other)] == other);
                }
                assert(files_of(after)[n] == file);
                if files_of(after).contains(other) && other != file {
                    assert(files_of(fixes)[files_of(after).index_of(other)] == other);
                }
            }
            assert(file_edits(rules, sources, file) + edits =~= edits);
            assert forall|i: int| 0 <= i < after.len() implies views((#[trigger] after[i]).edits@)
                == file_edits(rules, all, after[i].file) by {
                if i < n {
                    assert(after.drop_last()[i] == after[i]);
                    assert(files_of(fixes)[i] == after[i].file);
                    assert(files_of(fixes).contains(after[i].file));
                } else {
                    assert(after[i] == after.last());
                }
            }
        }
    }
}

/// Collects the edits of all modules, file by file.
fn collect_fixes(rules: &FixRules, sources: &Vec<ModuleSource>) -> (r: Vec<FileFixes>)
    ensures
        are_collected(rules@, views(sources@), r@),
{
    broadcast use vstd::std_specs::hash::group_hash_axioms;

    let ghost all = views(sources@);
    let mut r: Vec<FileFixes> = Vec::new();
    let mut index: HashMap<u64, usize> = HashMap::new();
    assert(files_of(r@) =~= Seq::<u64>::empty());
    for k in 0..sources.len()
        invariant
            all == views(sources@),
            are_collected(rules@, all.take(k as int), r@),
            is_index(index@, r@),
    {
        let source = &sources[k];
        let ghost before = r@;
        let mut edits = rules.edits_for_module(source);
        let ghost more = views(edits@);
        assert(all.take(k + 1) =~= all.take(k as int).push(source@));
        if edits.len() > 0 {
            if let Some(file) = source.file {
                let found = match index.get(&file) {
                    Some(p) => Some(*p),
                    None => None,
                };
                match found {
                    Some(p) => {
                        let ghost had = r@[p as int].edits@;
                        let ghost given = edits@;
                        r[p].edits.append(&mut edits);
                        proof {
                            assert(views(r@[p as int].edits@) =~= views(had) + more);
                            assert(files_of(r@) =~= files_of(before));
                            assert forall|i: int| 0 <= i < before.len() implies (
                            #[trigger] r@[i]).file == before[i].file && views(r@[i].edits@) == (
                            if before[i].file == file {
                                views(before[i].edits@) + more
                            } else {
                                views(before[i].edits@)
                            }) by {
                                if before[i].file == file && i != p {
                                    assert(files_of(before)[i] == files_of(before)[p as int]);
                                }
                            }
                            assert(files_of(before)[p as int] == file);
                            assert(files_of(before).contains(file));
                        }
                    },
                    None => {
                        let at = r.len();
                        index.insert(file, at);
                        let fixes = FileFixes { file, edits };
                        r.push(fixes);
                        proof {
                            assert(!files_of(before).contains(file));
                            assert(r@.drop_last() =~= before);
                            assert(files_of(r@) =~= files_of(before).push(file));
                            assert forall|other: u64| #[trigger]
                                index@.contains_key(other) <==> files_of(r@).contains(other) by {
                                if files_of(before).contains(other) {
                                    assert(files_of(r@)[files_of(before).index_of(other)] == other);
                                }
                                assert(files_of(r@)[at as int] == file);
                                if files_of(r@).contains(other) && other != file {
                                    assert(files_of(before)[files_of(r@).index_of(other)]
                                        == other);
                                }
                            }
                        }
                    },
                }
            }
        }
        proof {
            lemma_collected_further(rules@, all.take(k as int), source@, before, r@);
        }
    }
    assert(all.take(all.len() as int) =~= all);
    r
}

/// The fixes for all modules: one entry for each file that has edits, in the order in which the
/// files first come, with its edits from back to front.
pub fn generate_fixes(rules: &FixRules, sources: &Vec<ModuleSource>) -> (r: Vec<FileFixes>)
    ensures
        files_of(r@) == absorb(Seq::empty(), edited_files(rules@, views(sources@))),
        forall|file: u64| #[trigger]
            files_of(r@).contains(file) <==> file_edits(rules@, views(sources@), file).len() > 0,
        forall|i: int|
            0 <= i < r@.len() ==> is_stable_sort_of::<FileEdit>(
                views((#[trigger] r@[i]).edits@),
                file_edits(rules@, views(sources@), r@[i].file),
            ),
{
    let collected = collect_fixes(rules, sources);
    let ghost all = views(sources@);
    let ghost before = collected@;
    let mut r: Vec<FileFixes> = Vec::new();
    for fixes in it: collected
        invariant
            it.seq() == before,
            are_collected(rules@, all, before),
            r@.len() == it.index(),
            forall|i: int|
                0 <= i < it.index() ==> {
                    &&& (#[trigger] r@[i]).file == before[i].file
                    &&& is_stable_sort_of::<FileEdit>(
                        views(r@[i].edits@),
                        file_edits(rules@, all, r@[i].file),
                    )
                },
    {
        let ghost i = it.index() as int;
        assert(before[i] == fixes);
        let FileFixes { file, edits } = fixes;
        r.push(FileFixes { file, edits: sort(edits) });
    }
    assert(files_of(r@) =~= files_of(before));
    proof {
        assert forall|file: u64| #[trigger]
            files_of(r@).contains(file) <==> file_edits(rules@, all, file).len() > 0 by {
            lemma_edited_files(rules@, all, file);
        }
    }
    r
}

/// A file is among those that have fixes exactly if it has edits.
pub proof fn lemma_edited_files(rules: RulesView, sources: Seq<SourceView>, file: u64)
    ensures
        edited_files(rules, sources).contains(file) <==> file_edits(rules, sources, file).len() > 0,
        absorb(Seq::empty(), edited_files(rules, sources)).contains(file) <==> file_edits(
            rules,
            sources,
            file,
        ).len() > 0,
    decreases sources.len(),
{
    lemma_absorb(Seq::<u64>::empty(), edited_files(rules, sources));
    if sources.len() > 0 {
        let shorter = sources.drop_last();
        let before = edited_files(rules, shorter);
        let all = edited_files(rules, sources);
        lemma_edited_files(rules, shorter, file);
        if before.contains(file) {
            let i = before.index_of(file);
            assert(before[i] == file);
            assert(all[i] == file);
        }
        if all.len() > before.len() {
            assert(all[before.len() as int] == all.last());
        }
        if all.contains(file) && !before.contains(file) {
            let i = all.index_of(file);
            if i < before.len() {
                assert(before[i] == file);
            }
        }
    }
}

/// For 3.15, each statement gets at most one keyword, and gets one where all that it imports may
/// be made lazy and none of it is.
pub proof fn lemma_one_keyword_per_statement(
    occurrences: Seq<OccurrenceView>,
    lazy_eligible: Set<Seq<char>>,
    offset: u32,
)
    ensures
        ({
            let found = eligible(occurrences, lazy_eligible, TargetVersion::Py315);
            let edits = edits_for(found, TargetVersion::Py315, None);
            &&& edits.contains(keyword_edit(offset)) <==> offsets_of(occurrences).contains(offset)
                && !is_blocked(occurrences, lazy_eligible, offset)
            &&& edits.no_duplicates()
            &&& forall|i: int|
                0 <= i < edits.len() ==> #[trigger] edits[i] == keyword_edit(edits[i].offset)
        }),
{
    let pred = |occurrence: OccurrenceView|
        is_eligible(occurrences, lazy_eligible, TargetVersion::Py315, occurrence);
    let found = eligible(occurrences, lazy_eligible, TargetVersion::Py315);
    let edits = edits_for(found, TargetVersion::Py315, None);
    let raw = offsets_of(found);
    let offsets = statements(found);
    lemma_statements(found);
    assert(edits.no_duplicates()) by {
        assert forall|i: int, j: int| 0 <= i < j < edits.len() implies edits[i] != edits[j] by {
            assert(u32::before(u32::key(offsets[i]), u32::key(offsets[j])));
            assert(edits[i].offset == offsets[i] && edits[j].offset == offsets[j]);
        }
    }
    if edits.contains(keyword_edit(offset)) {
        let i = edits.index_of(keyword_edit(offset));
        assert(edits[i].offset == offset);
        assert(offsets[i] == offset);
        assert(offsets.contains(offset));
        assert(raw.contains(offset));
        let j = raw.index_of(offset);
        assert(found[j].offset == offset);
        occurrences.lemma_filter_pred(pred, j);
        assert(pred(found[j]));
        occurrences.lemma_filter_contains_rev(pred, found[j]);
        let k = occurrences.index_of(found[j]);
        assert(offsets_of(occurrences)[k] == offset);
    }
    if offsets_of(occurrences).contains(offset) && !is_blocked(occurrences, lazy_eligible, offset) {
        let k = offsets_of(occurrences).index_of(offset);
        assert(occurrences[k].offset == offset);
        assert(lazy_eligible.contains(occurrences[k].target));
        assert(pred(occurrences[k]));
        occurrences.lemma_filter_contains(pred, k);
        let j = found.index_of(occurrences[k]);
        assert(found[j] == occurrences[k]);
        assert(raw[j] == offset);
        assert(raw.contains(offset));
        assert(offsets.contains(offset));
        let i = offsets.index_of(offset);
        assert(offsets[i] == offset);
        assert(edits[i] == keyword_edit(offset));
    }
}

proof fn lemma_statements(occurrences: Seq<OccurrenceView>)
    ensures
        is_strictly_sorted::<u32>(statements(occurrences)),
        forall|offset: u32| #[trigger]
            statements(occurrences).contains(offset) <==> offsets_of(occurrences).contains(offset),
{
    lemma_in_order_members::<u32>(offsets_of(occurrences));
}

/// For 3.14, a file that has been fixed is not fixed again: once the declaration stands at the
/// beginning of a line, or behind blanks only, the file has no more edits.
pub proof fn lemma_fixed_file_stays(
    text: Seq<char>,
    names: Seq<Seq<char>>,
    s: int,
    at: int,
    occurrences: Seq<OccurrenceView>,
)
    requires
        is_line_start(text, s),
        s <= at <= text.len(),
        is_blank_between(text, s, at),
    ensures
        edits_for(
            occurrences,
            TargetVersion::Py314,
            Some(text.take(at) + declaration(names) + text.skip(at)),
        ).len() == 0,
{
    lemma_declaration_is_found(text, names, s, at);
}

/// For 3.14, the declaration goes no further back than any of the imports that it names.
pub proof fn lemma_declaration_goes_first(occurrences: Seq<OccurrenceView>, i: int)
    requires
        0 <= i < occurrences.len(),
    ensures
        edits_for(occurrences, TargetVersion::Py314, None).len() == 1,
        edits_for(occurrences, TargetVersion::Py314, None)[0].offset <= occurrences[i].offset,
        offsets_of(occurrences).contains(
            edits_for(occurrences, TargetVersion::Py314, None)[0].offset,
        ),
{
    lemma_statements(occurrences);
    let offsets = statements(occurrences);
    let offset = occurrences[i].offset;
    assert(offsets_of(occurrences)[i] == offset);
    assert(offsets_of(occurrences).contains(offset));
    assert(offsets.contains(offset));
    let j = offsets.index_of(offset);
    assert(offsets[j] == offset);
    if j > 0 {
        assert(u32::before(u32::key(offsets[0]), u32::key(offsets[j])));
    }
    assert(offsets.contains(offsets[0]));
}

/// Whether `again` is what is read from a file in which `edits` were made: the same imports in
/// the same statements, those of every statement that got a keyword lazy now.
pub open spec fn is_read_again(
    occurrences: Seq<OccurrenceView>,
    edits: Seq<EditView>,
    again: Seq<OccurrenceView>,
) -> bool {
    &&& again.len() == occurrences.len()
    &&& forall|i: int|
        0 <= i < again.len() ==> (#[trigger] again[i]).target == occurrences[i].target
            && again[i].is_lazy == (occurrences[i].is_lazy || edits.contains(
            keyword_edit(occurrences[i].offset),
        ))
    &&& forall|i: int, j: int|
        #![trigger again[i], again[j]]
        0 <= i < again.len() && 0 <= j < again.len() ==> (again[i].offset == again[j].offset
            <==> occurrences[i].offset == occurrences[j].offset)
}

/// For 3.15, a module that has been fixed is not fixed again: read from the file in which its
/// edits were made, with or without those of other modules, it has no more edits.
pub proof fn lemma_fixed_statements_stay(
    rules: RulesView,
    source: SourceView,
    edits: Seq<EditView>,
    again: SourceView,
)
    requires
        rules.target_version == TargetVersion::Py315,
        again.name == source.name,
        again.file == source.file,
        forall|k: int|
            0 <= k < module_edits(rules, source).len() ==> edits.contains(
                #[trigger] module_edits(rules, source)[k],
            ),
        is_read_again(source.occurrences, edits, again.occurrences),
    ensures
        module_edits(rules, again).len() == 0,
{
    let lazy_eligible = rules.lazy_eligible;
    let before = source.occurrences;
    let after = again.occurrences;
    let pred = |occurrence: OccurrenceView|
        is_eligible(after, lazy_eligible, TargetVersion::Py315, occurrence);
    if source.file is Some && !rules.load_imports_eagerly.contains(source.name) {
        let found = eligible(before, lazy_eligible, TargetVersion::Py315);
        let made = edits_for(found, TargetVersion::Py315, None);
        assert forall|i: int| 0 <= i < after.len() implies !pred(#[trigger] after[i]) by {
            let offset = before[i].offset;
            if is_blocked(before, lazy_eligible, offset) {
                let k = choose|k: int|
                    0 <= k < before.len() && (#[trigger] before[k]).offset == offset && (
                    before[k].is_lazy || !lazy_eligible.contains(before[k].target));
                assert(after[k].offset == after[i].offset);
            } else {
                assert(offsets_of(before)[i] == offset);
                assert(offsets_of(before).contains(offset));
                lemma_one_keyword_per_statement(before, lazy_eligible, offset);
                let k = made.index_of(keyword_edit(offset));
                assert(made[k] == keyword_edit(offset));
                if found.len() == 0 {
                    lemma_statements(found);
                    assert(offsets_of(found).contains(statements(found)[k])) by {
                        assert(statements(found).contains(statements(found)[k]));
                    }
                }
                assert(module_edits(rules, source)[k] == keyword_edit(offset));
                assert(after[i].is_lazy);
            }
            assert(is_blocked(after, lazy_eligible, after[i].offset));
        }
        after.lemma_all_neg_filter_empty(pred);
    }
}

} // verus!
