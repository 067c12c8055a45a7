//! Laws of text.
use vstd::prelude::*;

use crate::resolution::index_key;
use crate::text::dotted;
use crate::text::last_dot;
use crate::text::strip_calls;
use crate::text::text_before;

verus! {

/// A dotted name is its two parts with one dot between them.
pub proof fn lemma_dotted_parts(left: Seq<char>, right: Seq<char>)
    ensures
        dotted(left, right).len() == left.len() + 1 + right.len(),
        dotted(left, right).take(left.len() as int) == left,
        dotted(left, right)[left.len() as int] == '.',
        dotted(left, right).skip(left.len() as int + 1) == right,
{
    assert(dotted(left, right).take(left.len() as int) =~= left);
    assert(dotted(left, right).skip(left.len() as int + 1) =~= right);
}

/// Stripping calls takes off `()` pairs and nothing else, and leaves none at the end.
pub proof fn lemma_calls_are_stripped(text: Seq<char>)
    ensures
        ({
            let name = strip_calls(text);
            &&& name.len() <= text.len()
            &&& name == text.take(name.len() as int)
            &&& (text.len() - name.len()) % 2 == 0
            &&& forall|i: int|
                name.len() <= i < text.len() ==> #[trigger] text[i] == (if (i - name.len()) % 2
                    == 0 {
                    '('
                } else {
                    ')'
                })
            &&& !(name.len() >= 2 && name[name.len() - 2] == '(' && name[name.len() - 1] == ')')
        }),
    decreases text.len(),
{
    let n = text.len() as int;
    let name = strip_calls(text);
    if n >= 2 && text[n - 2] == '(' && text[n - 1] == ')' {
        let shorter = text.take(n - 2);
        lemma_calls_are_stripped(shorter);
        assert(name == strip_calls(shorter));
        assert(shorter.take(name.len() as int) =~= text.take(name.len() as int));
        assert forall|i: int| name.len() <= i < text.len() implies #[trigger] text[i] == (if (i
            - name.len()) % 2 == 0 {
            '('
        } else {
            ')'
        }) by {
            if i < n - 2 {
                assert(shorter[i] == text[i]);
            }
        }
    } else {
        assert(text.take(n) =~= text);
    }
}

/// The last dot is a dot with none behind it, and is found wherever there is one.
pub proof fn lemma_last_dot_is_last(text: Seq<char>, n: int)
    requires
        0 <= n <= text.len(),
    ensures
        match last_dot(text, n) {
            Some(i) => {
                &&& 0 <= i < n
                &&& text[i] == '.'
                &&& forall|j: int| i < j < n ==> #[trigger] text[j] != '.'
            },
            None => forall|j: int| 0 <= j < n ==> #[trigger] text[j] != '.',
        },
    decreases n,
{
    if n > 0 && text[n - 1] != '.' {
        lemma_last_dot_is_last(text, n - 1);
    }
}

/// Whether the texts agree up to `k`, and there the first ends or has the smaller character.
pub open spec fn parts_at(a: Seq<char>, b: Seq<char>, k: int) -> bool {
    &&& 0 <= k <= a.len()
    &&& k < b.len()
    &&& forall|i: int| 0 <= i < k ==> #[trigger] a[i] == b[i]
    &&& k == a.len() || a[k] < b[k]
}

/// One text comes before another exactly if it is a proper prefix of it, or has the smaller
/// character where they first differ.
pub proof fn lemma_text_order(a: Seq<char>, b: Seq<char>)
    ensures
        text_before(a, b) <==> exists|k: int| parts_at(a, b, k),
    decreases a.len(),
{
    if b.len() == 0 {
    } else if a.len() == 0 {
        assert(parts_at(a, b, 0));
    } else if a[0] == b[0] {
        let x = a.drop_first();
        let y = b.drop_first();
        lemma_text_order(x, y);
        if text_before(x, y) {
            let k = choose|k: int| parts_at(x, y, k);
            assert forall|i: int| 0 <= i < k + 1 implies #[trigger] a[i] == b[i] by {
                if i > 0 {
                    assert(x[i - 1] == y[i - 1]);
                }
            }
            assert(parts_at(a, b, k + 1));
        }
        if exists|k: int| parts_at(a, b, k) {
            let k = choose|k: int| parts_at(a, b, k);
            assert forall|i: int| 0 <= i < k - 1 implies #[trigger] x[i] == y[i] by {
                assert(a[i + 1] == b[i + 1]);
            }
            assert(parts_at(x, y, k - 1));
        }
    } else {
        if a[0] < b[0] {
            assert(parts_at(a, b, 0));
        }
        if exists|k: int| parts_at(a, b, k) {
            let k = choose|k: int| parts_at(a, b, k);
            if k > 0 {
                assert(a[0] == b[0]);
            }
        }
    }
}

/// The key of an error is the name of its callee, which has no dot; a qualified name has no key.
pub proof fn lemma_index_key(metadata: Seq<char>)
    ensures
        index_key(metadata) is None <==> exists|i: int|
            0 <= i < strip_calls(metadata).len() && #[trigger] strip_calls(metadata)[i] == '.',
        index_key(metadata) matches Some(key) ==> key == strip_calls(metadata),
{
    let name = strip_calls(metadata);
    if name.contains('.') {
        assert(name[name.index_of('.')] == '.');
    }
}

} // verus!
