//! Dotted names and other text, as sequences of characters.
use vstd::prelude::*;
use vstd::string::StrSliceExecFns;
use vstd::string::StringExecFns;

verus! {

/// `left.right`.
pub open spec fn dotted(left: Seq<char>, right: Seq<char>) -> Seq<char> {
    left + seq!['.'] + right
}

/// `text` without the `()` pairs at its end.
pub open spec fn strip_calls(text: Seq<char>) -> Seq<char>
    decreases text.len(),
{
    let n = text.len() as int;
    if n >= 2 && text[n - 2] == '(' && text[n - 1] == ')' {
        strip_calls(text.take(n - 2))
    } else {
        text
    }
}

/// The position of the last dot among the first `n` characters.
pub open spec fn last_dot(text: Seq<char>, n: int) -> Option<int>
    decreases n,
{
    if n <= 0 {
        None
    } else if text[n - 1] == '.' {
        Some(n - 1)
    } else {
        last_dot(text, n - 1)
    }
}

/// Whether `a` comes strictly before `b` when text is ordered character by character,
/// each character by its code point.
pub open spec fn text_before(a: Seq<char>, b: Seq<char>) -> bool
    decreases a.len(),
{
    if b.len() == 0 {
        false
    } else if a.len() == 0 {
        true
    } else if a[0] == b[0] {
        text_before(a.drop_first(), b.drop_first())
    } else {
        a[0] < b[0]
    }
}

/// Nothing comes before itself.
pub proof fn lemma_text_before_irreflexive(a: Seq<char>)
    ensures
        !text_before(a, a),
    decreases a.len(),
{
    if a.len() > 0 {
        lemma_text_before_irreflexive(a.drop_first());
    }
}

/// The order of text is transitive.
pub proof fn lemma_text_before_transitive(a: Seq<char>, b: Seq<char>, c: Seq<char>)
    requires
        text_before(a, b),
        text_before(b, c),
    ensures
        text_before(a, c),
    decreases a.len(),
{
    if a.len() > 0 && a[0] == b[0] && b[0] == c[0] {
        lemma_text_before_transitive(a.drop_first(), b.drop_first(), c.drop_first());
    }
}

/// Of two different texts one comes before the other.
pub proof fn lemma_text_before_total(a: Seq<char>, b: Seq<char>)
    ensures
        a == b || text_before(a, b) || text_before(b, a),
    decreases a.len(),
{
    if a.len() == 0 || b.len() == 0 {
        if a.len() == b.len() {
            assert(a =~= b);
        }
    } else if a[0] == b[0] {
        lemma_text_before_total(a.drop_first(), b.drop_first());
        if a.drop_first() == b.drop_first() {
            assert(a =~= seq![a[0]] + a.drop_first());
            assert(b =~= seq![b[0]] + b.drop_first());
        }
    }
}

/// The characters of `text`, one by one.
pub(crate) fn chars_of(text: &str) -> (chars: Vec<char>)
    ensures
        chars@ == text@,
{
    let mut chars: Vec<char> = Vec::new();
    for c in it: text.chars()
        invariant
            it.seq() == text@,
            chars@ == text@.take(it.index() as int),
    {
        assert(text@.take(it.index() + 1) =~= text@.take(it.index() as int).push(c));
        chars.push(c);
    }
    assert(text@.take(text@.len() as int) =~= text@);
    chars
}

/// Whether `a` comes strictly before `b`.
pub(crate) fn is_text_before(a: &str, b: &str) -> (r: bool)
    ensures
        r == text_before(a@, b@),
{
    let left = chars_of(a);
    let right = chars_of(b);
    let mut i: usize = 0;
    assert(left@.skip(0) =~= left@);
    assert(right@.skip(0) =~= right@);
    while i < left.len() && i < right.len()
        invariant
            left@ == a@,
            right@ == b@,
            i <= left@.len(),
            i <= right@.len(),
            text_before(left@, right@) == text_before(left@.skip(i as int), right@.skip(i as int)),
        decreases left@.len() - i,
    {
        assert(left@.skip(i as int).drop_first() =~= left@.skip(i + 1));
        assert(right@.skip(i as int).drop_first() =~= right@.skip(i + 1));
        if left[i] != right[i] {
            return left[i] < right[i];
        }
        i += 1;
    }
    i < right.len()
}

/// `left.right`.
pub(crate) fn join_dotted(left: &str, right: &str) -> (r: String)
    ensures
        r@ == dotted(left@, right@),
{
    proof {
        reveal_strlit(".");
    }
    let mut r: String = left.to_owned();
    r.append(".");
    r.append(right);
    assert(r@ =~= dotted(left@, right@));
    r
}

/// `text` without the `()` pairs at its end.
pub(crate) fn trim_calls(text: &str) -> (r: &str)
    ensures
        r@ == strip_calls(text@),
{
    let chars = chars_of(text);
    let mut n: usize = chars.len();
    proof {
        assert(chars@.take(n as int) =~= chars@);
    }
    while n >= 2 && chars[n - 2] == '(' && chars[n - 1] == ')'
        invariant
            n <= chars@.len(),
            strip_calls(chars@) == strip_calls(chars@.take(n as int)),
        decreases n,
    {
        proof {
            let head = chars@.take(n as int);
            assert(head[n - 2] == '(' && head[n - 1] == ')');
            assert(strip_calls(head) == strip_calls(head.take(n - 2)));
            assert(head.take(n - 2) =~= chars@.take(n - 2));
        }
        n -= 2;
    }
    proof {
        let head = chars@.take(n as int);
        assert(strip_calls(head) == head);
        assert(text@.subrange(0, n as int) =~= head);
    }
    text.substring_char(0, n)
}

/// The two sides of the last dot of `text`.
pub(crate) fn split_at_last_dot(text: &str) -> (r: Option<(&str, &str)>)
    ensures
        r is Some <==> last_dot(text@, text@.len() as int) is Some,
        r matches Some(sides) ==> {
            let i = last_dot(text@, text@.len() as int)->0;
            sides.0@ == text@.take(i) && sides.1@ == text@.skip(i + 1)
        },
{
    let chars = chars_of(text);
    let mut n: usize = chars.len();
    while n > 0
        invariant
            n <= chars@.len(),
            chars@ == text@,
            last_dot(text@, text@.len() as int) == last_dot(text@, n as int),
        decreases n,
    {
        if chars[n - 1] == '.' {
            assert(text@.subrange(0, n - 1) =~= text@.take(n - 1));
            assert(text@.subrange(n as int, text@.len() as int) =~= text@.skip(n as int));
            return Some((text.substring_char(0, n - 1), text.substring_char(n, chars.len())));
        }
        n -= 1;
    }
    None
}

} // verus!
