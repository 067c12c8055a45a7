//! Laws of sorting.
use vstd::prelude::*;

use crate::artifact::CachedReExport;
use crate::artifact::ReExportView;
use crate::edits::EditView;
use crate::edits::FileEdit;
use crate::errors::CachedError;
use crate::errors::ErrorView;
use crate::names::ModuleName;
use crate::order::in_order;
use crate::order::is_stable_sort_of;
use crate::order::lemma_in_order_members;
use crate::order::with_key;
use crate::order::SortKey;
use crate::text::text_before;

verus! {

proof fn lemma_filter_keeps_count<A>(items: Seq<A>, pred: spec_fn(A) -> bool, value: A)
    requires
        pred(value),
    ensures
        items.filter(pred).to_multiset().count(value) == items.to_multiset().count(value),
    decreases items.len(),
{
    broadcast use vstd::seq_lib::group_to_multiset_ensures;

    reveal(Seq::filter);
    if items.len() > 0 {
        let shorter = items.drop_last();
        lemma_filter_keeps_count(shorter, pred, value);
        assert(items =~= shorter.push(items.last()));
    }
}

/// Sorting loses nothing and makes nothing up: every item is there as often as it was.
pub proof fn lemma_sorting_keeps_items<T: SortKey>(result: Seq<T::V>, items: Seq<T::V>)
    requires
        is_stable_sort_of::<T>(result, items),
    ensures
        result.to_multiset() == items.to_multiset(),
{
    assert forall|value: T::V|
        #![trigger result.to_multiset().count(value)]
        result.to_multiset().count(value) == items.to_multiset().count(value) by {
        let pred = |item: T::V| T::key(item) == T::key(value);
        assert(with_key::<T>(result, T::key(value)) == with_key::<T>(items, T::key(value)));
        lemma_filter_keeps_count(result, pred, value);
        lemma_filter_keeps_count(items, pred, value);
    }
    assert(result.to_multiset() =~= items.to_multiset());
}

/// Sorted names are in the order of their characters.
pub proof fn lemma_sorted_names(result: Seq<Seq<char>>, items: Seq<Seq<char>>, i: int, j: int)
    requires
        is_stable_sort_of::<ModuleName>(result, items),
        0 <= i < j < result.len(),
    ensures
        result[i] == result[j] || text_before(result[i], result[j]),
        result.to_multiset() == items.to_multiset(),
{
    lemma_sorting_keeps_items::<ModuleName>(result, items);
    assert(!ModuleName::before(ModuleName::key(result[j]), ModuleName::key(result[i])));
    crate::text::lemma_text_before_total(result[i], result[j]);
}

/// Sorted edits go from back to front, and none is lost.
pub proof fn lemma_sorted_edits(result: Seq<EditView>, items: Seq<EditView>, i: int, j: int)
    requires
        is_stable_sort_of::<FileEdit>(result, items),
        0 <= i < j < result.len(),
    ensures
        result[i].offset >= result[j].offset,
        result.to_multiset() == items.to_multiset(),
{
    lemma_sorting_keeps_items::<FileEdit>(result, items);
    assert(!FileEdit::before(FileEdit::key(result[j]), FileEdit::key(result[i])));
}

/// Names put in order come each once, by their characters.
pub proof fn lemma_ordered_names(items: Seq<Seq<char>>)
    ensures
        forall|name: Seq<char>| #[trigger]
            in_order::<ModuleName>(items.to_set()).contains(name) <==> items.contains(name),
        forall|i: int, j: int|
            0 <= i < j < in_order::<ModuleName>(items.to_set()).len() ==> text_before(
                #[trigger] in_order::<ModuleName>(items.to_set())[i],
                #[trigger] in_order::<ModuleName>(items.to_set())[j],
            ),
{
    let r = in_order::<ModuleName>(items.to_set());
    lemma_in_order_members::<ModuleName>(items);
    assert forall|i: int, j: int| 0 <= i < j < r.len() implies text_before(
        #[trigger] r[i],
        #[trigger] r[j],
    ) by {
        assert(ModuleName::before(ModuleName::key(r[i]), ModuleName::key(r[j])));
    }
}

/// Offsets put in order come each once, from the front.
pub proof fn lemma_ordered_offsets(items: Seq<u32>)
    ensures
        forall|offset: u32| #[trigger]
            in_order::<u32>(items.to_set()).contains(offset) <==> items.contains(offset),
        forall|i: int, j: int|
            0 <= i < j < in_order::<u32>(items.to_set()).len() ==> #[trigger] in_order::<u32>(
                items.to_set(),
            )[i] < #[trigger] in_order::<u32>(items.to_set())[j],
{
    let r = in_order::<u32>(items.to_set());
    lemma_in_order_members::<u32>(items);
    assert forall|i: int, j: int| 0 <= i < j < r.len() implies #[trigger] r[i] < #[trigger] r[j] by {
        assert(u32::before(u32::key(r[i]), u32::key(r[j])));
    }
}

/// Errors put in order come each once, those of one kind by what they speak of, a plain decorator
/// before one with arguments.
pub proof fn lemma_ordered_errors(items: Seq<ErrorView>, i: int, j: int)
    requires
        0 <= i < j < in_order::<CachedError>(items.to_set()).len(),
    ensures
        ({
            let r = in_order::<CachedError>(items.to_set());
            &&& r[i] != r[j]
            &&& r[i].kind.rank() <= r[j].kind.rank()
            &&& r[i].kind == r[j].kind && r[i].metadata != r[j].metadata ==> text_before(
                r[i].metadata,
                r[j].metadata,
            )
            &&& r[i].kind == r[j].kind && r[i].metadata == r[j].metadata
                ==> !r[i].parameterized_decorator && r[j].parameterized_decorator
        }),
{
    let r = in_order::<CachedError>(items.to_set());
    lemma_in_order_members::<CachedError>(items);
    assert(CachedError::before(CachedError::key(r[i]), CachedError::key(r[j])));
    CachedError::irreflexive(r[i]);
}

/// Re-exports put in order come each once, by the module that exports, then by the name that it
/// exports, then by where that comes from.
pub proof fn lemma_ordered_re_exports(items: Seq<ReExportView>, i: int, j: int)
    requires
        0 <= i < j < in_order::<CachedReExport>(items.to_set()).len(),
    ensures
        ({
            let r = in_order::<CachedReExport>(items.to_set());
            &&& r[i] != r[j]
            &&& r[i].exported_module == r[j].exported_module || text_before(
                r[i].exported_module,
                r[j].exported_module,
            )
            &&& r[i].exported_module == r[j].exported_module ==> r[i].exported_attr
                == r[j].exported_attr || text_before(r[i].exported_attr, r[j].exported_attr)
            &&& r[i].exported_module == r[j].exported_module && r[i].exported_attr
                == r[j].exported_attr ==> {
                ||| text_before(r[i].imported_module, r[j].imported_module)
                ||| r[i].imported_module == r[j].imported_module && text_before(
                    r[i].imported_attr,
                    r[j].imported_attr,
                )
            }
        }),
{
    let r = in_order::<CachedReExport>(items.to_set());
    lemma_in_order_members::<CachedReExport>(items);
    assert(CachedReExport::before(CachedReExport::key(r[i]), CachedReExport::key(r[j])));
    CachedReExport::irreflexive(r[i]);
}

} // verus!
