//! Laws of applying edits.
use vstd::prelude::*;
use vstd::utf8::encode_utf8;
use vstd::utf8::is_char_boundary;

use crate::edits::edited;
use crate::edits::inserted;
use crate::edits::lemma_encode_add;
use crate::edits::lemma_encode_injective;
use crate::edits::lemma_one_edit_more;
use crate::edits::EditError;
use crate::edits::EditView;
use crate::edits::FileEdit;
use crate::order::is_stable_sort_of;
use crate::order::with_key;

verus! {

/// Whether the first `at` characters of the text take `offset` bytes.
pub open spec fn is_offset_of(text: Seq<char>, offset: int, at: int) -> bool {
    0 <= at <= text.len() && encode_utf8(text.take(at)).len() == offset
}

proof fn lemma_boundary_is_between_characters(text: Seq<char>, offset: int)
    requires
        0 <= offset <= encode_utf8(text).len(),
    ensures
        is_char_boundary(encode_utf8(text), offset) <==> exists|at: int|
            is_offset_of(text, offset, at),
{
    let bytes = encode_utf8(text);
    vstd::utf8::encode_utf8_valid_utf8(text);
    if is_char_boundary(bytes, offset) {
        vstd::utf8::valid_utf8_split(bytes, offset);
        let front = bytes.subrange(0, offset);
        let back = bytes.subrange(offset, bytes.len() as int);
        let a = vstd::utf8::decode_utf8(front);
        let b = vstd::utf8::decode_utf8(back);
        vstd::utf8::decode_utf8_encode_utf8(front);
        vstd::utf8::decode_utf8_encode_utf8(back);
        lemma_encode_add(a, b);
        assert(front + back =~= bytes);
        lemma_encode_injective(a + b, text);
        assert(text.take(a.len() as int) =~= a);
        assert(is_offset_of(text, offset, a.len() as int));
    }
    if exists|at: int| is_offset_of(text, offset, at) {
        let at = choose|at: int| is_offset_of(text, offset, at);
        let front = encode_utf8(text.take(at));
        let back = encode_utf8(text.skip(at));
        lemma_encode_add(text.take(at), text.skip(at));
        assert(text =~= text.take(at) + text.skip(at));
        assert(bytes == front + back);
        vstd::utf8::encode_utf8_valid_utf8(text.skip(at));
        if back.len() == 0 {
            vstd::utf8::is_char_boundary_start_end_of_seq(bytes);
        } else {
            vstd::utf8::is_char_boundary_start_end_of_seq(back);
            vstd::utf8::is_char_boundary_iff_not_is_continuation_byte(back, 0);
            assert(bytes[offset] == back[0]);
            vstd::utf8::is_char_boundary_iff_not_is_continuation_byte(bytes, offset);
        }
    }
}

/// No edit changes nothing. One edit puts its text between two characters and moves no other; it
/// fails behind the end of the text, and inside a character.
pub proof fn lemma_one_edit(text: Seq<char>, edit: EditView, at: int)
    ensures
        edited(encode_utf8(text), Seq::empty()) == Ok::<Seq<u8>, EditError>(encode_utf8(text)),
        is_offset_of(text, edit.offset as int, at) ==> edited(encode_utf8(text), seq![edit]) == Ok::<
            Seq<u8>,
            EditError,
        >(encode_utf8(text.take(at) + edit.text + text.skip(at))),
        edit.offset > encode_utf8(text).len() <==> edited(encode_utf8(text), seq![edit]) == Err::<
            Seq<u8>,
            EditError,
        >(EditError::OutOfBounds { offset: edit.offset }),
        (edit.offset <= encode_utf8(text).len() && !exists|i: int|
            is_offset_of(text, edit.offset as int, i)) <==> edited(encode_utf8(text), seq![edit])
            == Err::<Seq<u8>, EditError>(EditError::NotCharBoundary { offset: edit.offset }),
{
    let bytes = encode_utf8(text);
    let offset = edit.offset as int;
    assert(seq![edit][0] == edit);
    assert(seq![edit].drop_first() =~= Seq::<EditView>::empty());
    let after = inserted(bytes, offset, encode_utf8(edit.text));
    assert(edited(after, seq![edit].drop_first()) == Ok::<Seq<u8>, EditError>(after));
    if offset <= bytes.len() {
        lemma_boundary_is_between_characters(text, offset);
    }
    if is_offset_of(text, offset, at) {
        let front = text.take(at);
        let back = text.skip(at);
        lemma_encode_add(front, back);
        assert(text =~= front + back);
        assert(offset <= bytes.len());
        assert(bytes.take(offset) =~= encode_utf8(front));
        assert(bytes.skip(offset) =~= encode_utf8(back));
        lemma_encode_add(front + edit.text, back);
        lemma_encode_add(front, edit.text);
        assert(after == encode_utf8(front + edit.text + back));
    }
}

/// Edits are made one after another: the last works on what the others have left, and none is
/// made behind one that fails.
pub proof fn lemma_edits_in_turn(
    text: Seq<char>,
    edits: Seq<EditView>,
    sofar: Seq<char>,
    edit: EditView,
    error: EditError,
)
    ensures
        edited(encode_utf8(text), edits) == Ok::<Seq<u8>, EditError>(encode_utf8(sofar))
            ==> edited(encode_utf8(text), edits.push(edit)) == edited(
            encode_utf8(sofar),
            seq![edit],
        ),
        edited(encode_utf8(text), edits) == Err::<Seq<u8>, EditError>(error) ==> edited(
            encode_utf8(text),
            edits.push(edit),
        ) == Err::<Seq<u8>, EditError>(error),
{
    lemma_one_edit_more(encode_utf8(text), edits, edit);
}

/// Sorting edits leaves those at one offset in the order in which they stood.
pub proof fn lemma_edits_at_one_offset(
    result: Seq<EditView>,
    items: Seq<EditView>,
    offset: u32,
)
    requires
        is_stable_sort_of::<FileEdit>(result, items),
    ensures
        result.filter(|edit: EditView| edit.offset == offset) == items.filter(
            |edit: EditView| edit.offset == offset,
        ),
{
    assert(with_key::<FileEdit>(result, offset) == with_key::<FileEdit>(items, offset));
    lemma_edits_of_offset(result, offset);
    lemma_edits_of_offset(items, offset);
}

proof fn lemma_edits_of_offset(items: Seq<EditView>, offset: u32)
    ensures
        with_key::<FileEdit>(items, offset) == items.filter(
            |edit: EditView| edit.offset == offset,
        ),
    decreases items.len(),
{
    reveal(Seq::filter);
    if items.len() == 0 {
        assert(with_key::<FileEdit>(items, offset).len() == 0);
    } else {
        let shorter = items.drop_last();
        lemma_edits_of_offset(shorter, offset);
        crate::order::lemma_with_key_push::<FileEdit>(shorter, items.last(), offset);
        assert(shorter.push(items.last()) =~= items);
    }
}

} // verus!
