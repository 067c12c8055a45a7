//! Insertions into the text of a file.
use vstd::prelude::*;
use vstd::string::StringExecFns;
use vstd::string::StringSliceAdditionalSpecFns;
use vstd::utf8::encode_utf8;
use vstd::utf8::is_char_boundary;
use vstd::utf8::valid_utf8;

use crate::order::is_stable_sort_of;
use crate::order::SortKey;

verus! {

/// A text to insert, at an offset in bytes.
#[derive(Debug, PartialEq, Eq)]
pub struct FileEdit {
    pub offset: u32,
    pub text: String,
}

/// What a [`FileEdit`] records.
pub struct EditView {
    pub offset: u32,
    pub text: Seq<char>,
}

impl View for FileEdit {
    type V = EditView;

    open spec fn view(&self) -> EditView {
        EditView { offset: self.offset, text: self.text@ }
    }
}

impl Clone for FileEdit {
    fn clone(&self) -> (r: Self)
        ensures
            r@ == self@,
    {
        FileEdit { offset: self.offset, text: self.text.clone() }
    }
}

/// Edits are sorted from the back of a file to its front, so that one does not move the place
/// of the next.
impl SortKey for FileEdit {
    type Key = u32;

    open spec fn key(value: EditView) -> u32 {
        value.offset
    }

    open spec fn before(a: u32, b: u32) -> bool {
        a > b
    }

    proof fn irreflexive(a: u32) {
    }

    proof fn transitive(a: u32, b: u32, c: u32) {
    }

    proof fn total(a: u32, b: u32) {
    }

    fn is_before(&self, other: &Self) -> (r: bool) {
        self.offset > other.offset
    }
}

/// Why an edit cannot be made.
#[derive(Debug, Clone, Copy, PartialEq, Eq, Structural)]
pub enum EditError {
    /// The offset lies behind the end of the text.
    OutOfBounds { offset: u32 },
    /// The offset lies inside a character.
    NotCharBoundary { offset: u32 },
}

/// The bytes with more put in at `offset`.
pub open spec fn inserted(bytes: Seq<u8>, offset: int, more: Seq<u8>) -> Seq<u8> {
    bytes.take(offset) + more + bytes.skip(offset)
}

/// The bytes with the edits made one after another, or why one of them cannot be made.
pub open spec fn edited(bytes: Seq<u8>, edits: Seq<EditView>) -> Result<Seq<u8>, EditError>
    decreases edits.len(),
{
    if edits.len() == 0 {
        Ok(bytes)
    } else {
        let edit = edits[0];
        if edit.offset > bytes.len() {
            Err(EditError::OutOfBounds { offset: edit.offset })
        } else if !is_char_boundary(bytes, edit.offset as int) {
            Err(EditError::NotCharBoundary { offset: edit.offset })
        } else {
            edited(
                inserted(bytes, edit.offset as int, encode_utf8(edit.text)),
                edits.drop_first(),
            )
        }
    }
}

pub(crate) proof fn lemma_encode_add(a: Seq<char>, b: Seq<char>)
    ensures
        encode_utf8(a + b) == encode_utf8(a) + encode_utf8(b),
    decreases a.len(),
{
    if a.len() == 0 {
        assert(a + b =~= b);
        assert(encode_utf8(a) + encode_utf8(b) =~= encode_utf8(b));
    } else {
        assert((a + b).drop_first() =~= a.drop_first() + b);
        lemma_encode_add(a.drop_first(), b);
        assert(encode_utf8(a + b) =~= encode_utf8(a) + encode_utf8(b));
    }
}

/// Inserts `text` at a character boundary.
fn insert_at(content: &str, offset: usize, text: &str) -> (r: String)
    requires
        is_char_boundary(encode_utf8(content@), offset as int),
        offset <= encode_utf8(content@).len(),
    ensures
        encode_utf8(r@) == inserted(encode_utf8(content@), offset as int, encode_utf8(text@)),
{
    let (head, tail) = content.split_at(offset);
    let mut r: String = head.to_owned();
    r.append(text);
    r.append(tail);
    proof {
        let bytes = encode_utf8(content@);
        assert(r@ =~= head@ + text@ + tail@);
        lemma_encode_add(head@ + text@, tail@);
        lemma_encode_add(head@, text@);
        assert(encode_utf8(head@) =~= bytes.take(offset as int));
        assert(encode_utf8(tail@) =~= bytes.skip(offset as int));
    }
    r
}

/// Makes the edits one after another.
pub fn apply_edits(content: &str, edits: &[FileEdit]) -> (r: Result<String, EditError>)
    ensures
        ({
            let edits = Seq::new(edits@.len(), |i: int| edits@[i]@);
            match edited(encode_utf8(content@), edits) {
                Ok(bytes) => r matches Ok(text) && encode_utf8(text@) == bytes,
                Err(error) => r == Err::<String, EditError>(error),
            }
        }),
{
    let ghost all = Seq::new(edits@.len(), |i: int| edits@[i]@);
    let mut modified: String = content.to_owned();
    assert(all.skip(0) =~= all);
    for i in 0..edits.len()
        invariant
            all == Seq::new(edits@.len(), |i: int| edits@[i]@),
            edited(encode_utf8(content@), all) == edited(
                encode_utf8(modified@),
                all.skip(i as int),
            ),
    {
        let edit = &edits[i];
        let offset = edit.offset as usize;
        assert(all.skip(i as int)[0] == edit@);
        assert(all.skip(i as int).drop_first() =~= all.skip(i + 1));
        if offset > modified.as_str().as_bytes().len() {
            return Err(EditError::OutOfBounds { offset: edit.offset });
        }
        if !modified.as_str().is_char_boundary(offset) {
            return Err(EditError::NotCharBoundary { offset: edit.offset });
        }
        modified = insert_at(modified.as_str(), offset, edit.text.as_str());
    }
    assert(all.skip(edits@.len() as int) =~= Seq::<EditView>::empty());
    Ok(modified)
}

/// Whether each edit stands no further back than those before it.
pub open spec fn is_back_to_front(edits: Seq<EditView>) -> bool {
    forall|i: int, j: int|
        #![trigger edits[i], edits[j]]
        0 <= i < j < edits.len() ==> edits[j].offset <= edits[i].offset
}

/// Whether every edit stands at a character boundary of the text.
pub open spec fn all_at_boundaries(bytes: Seq<u8>, edits: Seq<EditView>) -> bool {
    forall|i: int|
        0 <= i < edits.len() ==> (#[trigger] edits[i]).offset <= bytes.len() && is_char_boundary(
            bytes,
            edits[i].offset as int,
        )
}

/// Sorting puts edits from back to front.
pub proof fn lemma_sorted_edits_go_back_to_front(sorted: Seq<EditView>, edits: Seq<EditView>)
    requires
        is_stable_sort_of::<FileEdit>(sorted, edits),
    ensures
        is_back_to_front(sorted),
{
    assert forall|i: int, j: int|
        #![trigger sorted[i], sorted[j]]
        0 <= i < j < sorted.len() implies sorted[j].offset <= sorted[i].offset by {
        assert(!FileEdit::before(FileEdit::key(sorted[j]), FileEdit::key(sorted[i])));
    }
}

proof fn lemma_boundary_kept(bytes: Seq<u8>, offset: int, more: Seq<u8>, i: int)
    requires
        valid_utf8(bytes),
        valid_utf8(more),
        is_char_boundary(bytes, offset),
        is_char_boundary(bytes, i),
        0 <= i <= offset <= bytes.len(),
    ensures
        valid_utf8(inserted(bytes, offset, more)),
        is_char_boundary(inserted(bytes, offset, more), i),
{
    let after = inserted(bytes, offset, more);
    let head = bytes.subrange(0, offset);
    let tail = bytes.subrange(offset, bytes.len() as int);
    vstd::utf8::valid_utf8_split(bytes, offset);
    vstd::utf8::valid_utf8_concat(head, more);
    vstd::utf8::valid_utf8_concat(head + more, tail);
    assert(after =~= head + more + tail);
    if i < offset {
        vstd::utf8::is_char_boundary_iff_not_is_continuation_byte(bytes, i);
        assert(after[i] == bytes[i]);
        vstd::utf8::is_char_boundary_iff_not_is_continuation_byte(after, i);
    } else if more.len() > 0 {
        vstd::utf8::is_char_boundary_start_end_of_seq(more);
        vstd::utf8::is_char_boundary_iff_not_is_continuation_byte(more, 0);
        assert(after[i] == more[0]);
        vstd::utf8::is_char_boundary_iff_not_is_continuation_byte(after, i);
    } else {
        assert(after =~= bytes);
    }
}

/// Edits leave the text before the foremost of them as it was.
pub proof fn lemma_edits_keep_the_front(bytes: Seq<u8>, edits: Seq<EditView>, n: int)
    requires
        0 <= n <= bytes.len(),
        forall|i: int| 0 <= i < edits.len() ==> n <= (#[trigger] edits[i]).offset,
    ensures
        edited(bytes, edits) matches Ok(after) ==> n <= after.len() && after.take(n) == bytes.take(
            n,
        ),
    decreases edits.len(),
{
    if edits.len() > 0 {
        let edit = edits[0];
        let rest = edits.drop_first();
        if edit.offset <= bytes.len() {
            let after = inserted(bytes, edit.offset as int, encode_utf8(edit.text));
            assert(after.take(n) =~= bytes.take(n));
            assert forall|i: int| 0 <= i < rest.len() implies n <= (#[trigger] rest[i]).offset by {
                assert(rest[i] == edits[i + 1]);
            }
            lemma_edits_keep_the_front(after, rest, n);
        }
    }
}

/// The bytes with each edit's text at the place in them that the edit names, for edits from back
/// to front.
pub open spec fn woven(bytes: Seq<u8>, edits: Seq<EditView>) -> Seq<u8>
    decreases edits.len(),
{
    if edits.len() == 0 {
        bytes
    } else {
        let offset = edits[0].offset as int;
        woven(bytes.take(offset), edits.drop_first()) + encode_utf8(edits[0].text) + bytes.skip(
            offset,
        )
    }
}

proof fn lemma_boundary_of_front(front: Seq<u8>, back: Seq<u8>, i: int)
    requires
        valid_utf8(front),
        valid_utf8(back),
        0 <= i <= front.len(),
    ensures
        valid_utf8(front + back),
        is_char_boundary(front + back, i) <==> is_char_boundary(front, i),
{
    let whole = front + back;
    vstd::utf8::valid_utf8_concat(front, back);
    if i < front.len() {
        vstd::utf8::is_char_boundary_iff_not_is_continuation_byte(front, i);
        vstd::utf8::is_char_boundary_iff_not_is_continuation_byte(whole, i);
        assert(whole[i] == front[i]);
    } else {
        vstd::utf8::is_char_boundary_start_end_of_seq(front);
        if back.len() > 0 {
            vstd::utf8::is_char_boundary_start_end_of_seq(back);
            vstd::utf8::is_char_boundary_iff_not_is_continuation_byte(back, 0);
            assert(whole[i] == back[0]);
            vstd::utf8::is_char_boundary_iff_not_is_continuation_byte(whole, i);
        } else {
            assert(whole =~= front);
        }
    }
}

proof fn lemma_edited_front(front: Seq<u8>, back: Seq<u8>, edits: Seq<EditView>)
    requires
        valid_utf8(front),
        valid_utf8(back),
        is_back_to_front(edits),
        all_at_boundaries(front, edits),
    ensures
        edited(front, edits) matches Ok(after) && edited(front + back, edits) == Ok::<
            Seq<u8>,
            EditError,
        >(after + back),
    decreases edits.len(),
{
    if edits.len() > 0 {
        let edit = edits[0];
        let offset = edit.offset as int;
        let more = encode_utf8(edit.text);
        let rest = edits.drop_first();
        let after = inserted(front, offset, more);
        vstd::utf8::encode_utf8_valid_utf8(edit.text);
        lemma_boundary_of_front(front, back, offset);
        lemma_boundary_kept(front, offset, more, offset);
        assert(inserted(front + back, offset, more) =~= after + back);
        assert forall|i: int| 0 <= i < rest.len() implies (#[trigger] rest[i]).offset
            <= after.len() && is_char_boundary(after, rest[i].offset as int) by {
            assert(rest[i] == edits[i + 1]);
            lemma_boundary_kept(front, offset, more, rest[i].offset as int);
        }
        assert forall|i: int, j: int|
            #![trigger rest[i], rest[j]]
            0 <= i < j < rest.len() implies rest[j].offset <= rest[i].offset by {
            assert(rest[i] == edits[i + 1] && rest[j] == edits[j + 1]);
        }
        lemma_edited_front(after, back, rest);
    }
}

/// Made from back to front, every edit ends up at the place that it names in the text as it was:
/// none moves the place of the next.
pub proof fn lemma_back_to_front_edits_keep_their_places(text: Seq<char>, edits: Seq<EditView>)
    requires
        is_back_to_front(edits),
        all_at_boundaries(encode_utf8(text), edits),
    ensures
        edited(encode_utf8(text), edits) == Ok::<Seq<u8>, EditError>(
            woven(encode_utf8(text), edits),
        ),
{
    vstd::utf8::encode_utf8_valid_utf8(text);
    lemma_edited_is_woven(encode_utf8(text), edits);
}

proof fn lemma_edited_is_woven(bytes: Seq<u8>, edits: Seq<EditView>)
    requires
        valid_utf8(bytes),
        is_back_to_front(edits),
        all_at_boundaries(bytes, edits),
    ensures
        edited(bytes, edits) == Ok::<Seq<u8>, EditError>(woven(bytes, edits)),
    decreases edits.len(),
{
    if edits.len() > 0 {
        let edit = edits[0];
        let offset = edit.offset as int;
        let more = encode_utf8(edit.text);
        let rest = edits.drop_first();
        let front = bytes.take(offset);
        let tail = bytes.skip(offset);
        vstd::utf8::encode_utf8_valid_utf8(edit.text);
        vstd::utf8::valid_utf8_split(bytes, offset);
        assert(front =~= bytes.subrange(0, offset));
        assert(tail =~= bytes.subrange(offset, bytes.len() as int));
        vstd::utf8::valid_utf8_concat(more, tail);
        assert(bytes =~= front + tail);
        assert forall|i: int| 0 <= i < rest.len() implies (#[trigger] rest[i]).offset
            <= front.len() && is_char_boundary(front, rest[i].offset as int) by {
            assert(rest[i] == edits[i + 1]);
            lemma_boundary_of_front(front, tail, rest[i].offset as int);
        }
        assert forall|i: int, j: int|
            #![trigger rest[i], rest[j]]
            0 <= i < j < rest.len() implies rest[j].offset <= rest[i].offset by {
            assert(rest[i] == edits[i + 1] && rest[j] == edits[j + 1]);
        }
        lemma_edited_is_woven(front, rest);
        lemma_edited_front(front, more + tail, rest);
        assert(inserted(bytes, offset, more) =~= front + (more + tail));
        assert(woven(front, rest) + (more + tail) =~= woven(bytes, edits));
    }
}

/// Making one edit more is making it in what the others gave.
pub proof fn lemma_one_edit_more(bytes: Seq<u8>, edits: Seq<EditView>, edit: EditView)
    ensures
        edited(bytes, edits.push(edit)) == (match edited(bytes, edits) {
            Ok(sofar) => edited(sofar, seq![edit]),
            Err(error) => Err(error),
        }),
    decreases edits.len(),
{
    let all = edits.push(edit);
    if edits.len() == 0 {
        assert(all =~= seq![edit]);
    } else {
        let first = edits[0];
        assert(all[0] == first);
        assert(all.drop_first() =~= edits.drop_first().push(edit));
        if first.offset <= bytes.len() && is_char_boundary(bytes, first.offset as int) {
            let after = inserted(bytes, first.offset as int, encode_utf8(first.text));
            lemma_one_edit_more(after, edits.drop_first(), edit);
        }
    }
}

/// What edits give is text again.
pub proof fn lemma_edited_is_text(bytes: Seq<u8>, edits: Seq<EditView>)
    requires
        valid_utf8(bytes),
    ensures
        edited(bytes, edits) matches Ok(after) ==> valid_utf8(after),
    decreases edits.len(),
{
    if edits.len() > 0 {
        let first = edits[0];
        let offset = first.offset as int;
        if offset <= bytes.len() && is_char_boundary(bytes, offset) {
            let more = encode_utf8(first.text);
            vstd::utf8::encode_utf8_valid_utf8(first.text);
            lemma_boundary_kept(bytes, offset, more, offset);
            lemma_edited_is_text(inserted(bytes, offset, more), edits.drop_first());
        }
    }
}

/// The edit that is made last, no further back than the others, stands behind the text that was
/// before it from the beginning.
pub proof fn lemma_foremost_edit(text: Seq<char>, edits: Seq<EditView>, after: Seq<char>, at: int) -> (
    tail: Seq<char>)
    requires
        edits.len() > 0,
        is_back_to_front(edits),
        edited(encode_utf8(text), edits) == Ok::<Seq<u8>, EditError>(encode_utf8(after)),
        0 <= at <= text.len(),
        encode_utf8(text.take(at)).len() == edits.last().offset,
    ensures
        after == text.take(at) + edits.last().text + tail,
{
    let bytes = encode_utf8(text);
    let others = edits.drop_last();
    let last = edits.last();
    let offset = last.offset as int;
    let front = encode_utf8(text.take(at));
    let more = encode_utf8(last.text);
    assert(others.push(last) =~= edits);
    lemma_one_edit_more(bytes, others, last);
    vstd::utf8::encode_utf8_valid_utf8(text);
    vstd::utf8::encode_utf8_valid_utf8(after);
    lemma_edited_is_text(bytes, others);
    let sofar = edited(bytes, others)->Ok_0;
    assert(text =~= text.take(at) + text.skip(at));
    lemma_encode_add(text.take(at), text.skip(at));
    assert(bytes.take(offset) =~= front);
    assert forall|i: int| 0 <= i < others.len() implies offset <= (#[trigger] others[i]).offset by {
        assert(others[i] == edits[i]);
        assert(edits[edits.len() - 1] == last);
    }
    lemma_edits_keep_the_front(bytes, others, offset);
    assert(seq![last][0] == last);
    assert(seq![last].drop_first() =~= Seq::<EditView>::empty());
    let end = inserted(sofar, offset, more);
    assert(edited(end, seq![last].drop_first()) == Ok::<Seq<u8>, EditError>(end));
    assert(end == encode_utf8(after));
    let rest = sofar.skip(offset);
    vstd::utf8::valid_utf8_split(sofar, offset);
    assert(rest =~= sofar.subrange(offset, sofar.len() as int));
    let tail = vstd::utf8::decode_utf8(rest);
    vstd::utf8::decode_utf8_encode_utf8(rest);
    assert(encode_utf8(tail) == rest);
    let whole = text.take(at) + last.text + tail;
    lemma_encode_add(text.take(at) + last.text, tail);
    lemma_encode_add(text.take(at), last.text);
    assert(encode_utf8(whole) =~= end);
    lemma_encode_injective(whole, after);
    tail
}

/// Texts of the same bytes are the same.
pub proof fn lemma_encode_injective(a: Seq<char>, b: Seq<char>)
    requires
        encode_utf8(a) == encode_utf8(b),
    ensures
        a == b,
{
    vstd::utf8::encode_utf8_decode_utf8(a);
    vstd::utf8::encode_utf8_decode_utf8(b);
}

} // verus!
