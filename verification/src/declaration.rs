//! The `__lazy_modules__` declaration of a source file.
use vstd::prelude::*;
use vstd::string::StringExecFns;

use crate::names::views;
use crate::names::ModuleName;
use crate::text::chars_of;

verus! {

/// Whether a character is white space, as Unicode's `White_Space` property has it.
pub open spec fn is_whitespace(c: char) -> bool {
    let code = c as u32;
    ||| 0x09 <= code <= 0x0d
    ||| code == 0x20
    ||| code == 0x85
    ||| code == 0xa0
    ||| code == 0x1680
    ||| 0x2000 <= code <= 0x200a
    ||| code == 0x2028
    ||| code == 0x2029
    ||| code == 0x202f
    ||| code == 0x205f
    ||| code == 0x3000
}

/// Whether a character is white space that ends no line.
pub open spec fn is_blank(c: char) -> bool {
    is_whitespace(c) && c != '\n'
}

/// Whether a line begins at `s`.
pub open spec fn is_line_start(text: Seq<char>, s: int) -> bool {
    0 <= s <= text.len() && (s == 0 || text[s - 1] == '\n')
}

/// Whether the characters from `from` up to `to` are blank.
pub open spec fn is_blank_between(text: Seq<char>, from: int, to: int) -> bool {
    forall|i: int| from <= i < to ==> is_blank(#[trigger] text[i])
}

/// Whether `name` stands at `at`.
pub open spec fn stands_at(text: Seq<char>, name: Seq<char>, at: int) -> bool {
    0 <= at && at + name.len() <= text.len() && text.subrange(at, at + name.len()) == name
}

/// Whether the line that begins at `s` has, after blanks, the name at `a`, and after more blanks
/// a `=` or a `:` at `b`.
pub open spec fn declares_at(text: Seq<char>, s: int, a: int, b: int) -> bool {
    let name = "__lazy_modules__"@;
    &&& is_line_start(text, s)
    &&& s <= a
    &&& is_blank_between(text, s, a)
    &&& stands_at(text, name, a)
    &&& a + name.len() <= b < text.len()
    &&& is_blank_between(text, a + name.len(), b)
    &&& text[b] == '=' || text[b] == ':'
}

/// Whether some line declares `__lazy_modules__`.
pub open spec fn declares(text: Seq<char>) -> bool {
    exists|s: int, a: int, b: int| declares_at(text, s, a, b)
}

/// `"name"`.
pub open spec fn quoted(name: Seq<char>) -> Seq<char> {
    seq!['"'] + name + seq!['"']
}

/// The names, each in quotes, with commas between them.
pub open spec fn comma_separated(names: Seq<Seq<char>>) -> Seq<char>
    decreases names.len(),
{
    if names.len() == 0 {
        Seq::empty()
    } else if names.len() == 1 {
        quoted(names[0])
    } else {
        comma_separated(names.drop_last()) + ", "@ + quoted(names.last())
    }
}

/// The declaration of a tuple of names. That of a single name has a comma behind it.
pub open spec fn declaration(names: Seq<Seq<char>>) -> Seq<char> {
    if names.len() == 1 {
        "__lazy_modules__ = ("@ + quoted(names[0]) + ",)\n"@
    } else {
        "__lazy_modules__ = ("@ + comma_separated(names) + ")\n"@
    }
}

fn is_blank_char(c: char) -> (r: bool)
    ensures
        r == is_blank(c),
{
    let code = c as u32;
    let white = (0x09 <= code && code <= 0x0d) || code == 0x20 || code == 0x85 || code == 0xa0
        || code == 0x1680 || (0x2000 <= code && code <= 0x200a) || code == 0x2028 || code == 0x2029
        || code == 0x202f || code == 0x205f || code == 0x3000;
    white && c != '\n'
}

/// The first position from `from` on that is not blank.
fn skip_blanks(chars: &Vec<char>, from: usize) -> (r: usize)
    requires
        from <= chars@.len(),
    ensures
        from <= r <= chars@.len(),
        is_blank_between(chars@, from as int, r as int),
        r < chars@.len() ==> !is_blank(chars@[r as int]),
{
    let mut r: usize = from;
    while r < chars.len()
        invariant
            from <= r <= chars@.len(),
            is_blank_between(chars@, from as int, r as int),
        ensures
            from <= r <= chars@.len(),
            is_blank_between(chars@, from as int, r as int),
            r < chars@.len() ==> !is_blank(chars@[r as int]),
        decreases chars@.len() - r,
    {
        if !is_blank_char(chars[r]) {
            break;
        }
        r += 1;
    }
    r
}

fn has_at(chars: &Vec<char>, name: &Vec<char>, at: usize) -> (r: bool)
    requires
        at <= chars@.len(),
    ensures
        r == stands_at(chars@, name@, at as int),
{
    let n = chars.len();
    if n - at < name.len() {
        return false;
    }
    for i in 0..name.len()
        invariant
            n == chars@.len(),
            at + name@.len() <= n,
            forall|j: int| 0 <= j < i ==> #[trigger] name@[j] == chars@[at + j],
    {
        if chars[at + i] != name[i] {
            assert(chars@.subrange(at as int, at + name@.len())[i as int] != name@[i as int]);
            return false;
        }
    }
    assert(chars@.subrange(at as int, at + name@.len()) =~= name@);
    true
}

/// Whether the line that begins at `s` declares `__lazy_modules__`.
fn line_declares(chars: &Vec<char>, s: usize) -> (r: bool)
    requires
        is_line_start(chars@, s as int),
    ensures
        r == exists|a: int, b: int| declares_at(chars@, s as int, a, b),
{
    let name = chars_of("__lazy_modules__");
    proof {
        reveal_strlit("__lazy_modules__");
    }
    let ghost text = chars@;
    let a = skip_blanks(chars, s);
    assert forall|a2: int, b2: int| declares_at(text, s as int, a2, b2) implies a2 == a by {
        assert(text.subrange(a2, a2 + name@.len())[0] == name@[0]);
        assert(text[a2] == '_');
        if a2 < a {
            assert(is_blank(text[a2]));
        }
        if a < a2 {
            assert(is_blank(text[a as int]));
        }
    }
    if !has_at(chars, &name, a) {
        return false;
    }
    let n = chars.len();
    assert(a + name@.len() <= n);
    let after = a + name.len();
    let b = skip_blanks(chars, after);
    assert forall|a2: int, b2: int| declares_at(text, s as int, a2, b2) implies b2 == b by {
        if b2 < b {
            assert(is_blank(text[b2]));
        }
        if b < b2 {
            assert(is_blank(text[b as int]));
        }
    }
    if b < n && (chars[b] == '=' || chars[b] == ':') {
        assert(declares_at(text, s as int, a as int, b as int));
        return true;
    }
    false
}

/// Whether some line of `content` declares `__lazy_modules__`, with a value or a type.
pub fn defines_lazy_modules(content: &str) -> (r: bool)
    ensures
        r == declares(content@),
{
    let chars = chars_of(content);
    let ghost text = content@;
    for s in 0..chars.len()
        invariant
            chars@ == text,
            text == content@,
            forall|s2: int, a: int, b: int| 0 <= s2 < s ==> !declares_at(text, s2, a, b),
    {
        if s == 0 || chars[s - 1] == '\n' {
            if line_declares(&chars, s) {
                return true;
            }
        }
    }
    false
}

/// The names, each in quotes, with commas between them.
fn comma_separate(names: &Vec<ModuleName>) -> (r: String)
    ensures
        r@ == comma_separated(views(names@)),
{
    let ghost all = views(names@);
    proof {
        reveal_strlit(", ");
        reveal_strlit("\"");
    }
    let mut r: String = String::new();
    assert(r@ =~= comma_separated(all.take(0)));
    for i in 0..names.len()
        invariant
            all == views(names@),
            r@ == comma_separated(all.take(i as int)),
            "\""@ == seq!['"'],
    {
        let ghost before = r@;
        let ghost now = all.take(i + 1);
        if i > 0 {
            r.append(", ");
        }
        r.append("\"");
        r.append(names[i].as_str());
        r.append("\"");
        proof {
            assert(now.drop_last() =~= all.take(i as int));
            assert(now.last() == names@[i as int]@);
            if i == 0 {
                assert(before =~= Seq::<char>::empty());
                assert(r@ =~= quoted(now[0]));
            } else {
                assert(r@ =~= before + ", "@ + quoted(now.last()));
            }
        }
    }
    assert(all.take(all.len() as int) =~= all);
    r
}

/// The declaration of a tuple of names.
pub fn lazy_modules_declaration(names: &Vec<ModuleName>) -> (r: String)
    ensures
        r@ == declaration(views(names@)),
{
    let mut r: String = "__lazy_modules__ = (".to_owned();
    let listed = comma_separate(names);
    r.append(listed.as_str());
    if names.len() == 1 {
        r.append(",)\n");
    } else {
        r.append(")\n");
    }
    r
}

/// A declaration that is put at the beginning of a line, or behind blanks only, is found there:
/// the file declares `__lazy_modules__` from then on.
pub proof fn lemma_declaration_is_found(
    text: Seq<char>,
    names: Seq<Seq<char>>,
    s: int,
    at: int,
)
    requires
        is_line_start(text, s),
        s <= at <= text.len(),
        is_blank_between(text, s, at),
    ensures
        declares(text.take(at) + declaration(names) + text.skip(at)),
{
    reveal_strlit("__lazy_modules__");
    reveal_strlit("__lazy_modules__ = (");
    let name = "__lazy_modules__"@;
    let after = text.take(at) + declaration(names) + text.skip(at);
    let head = "__lazy_modules__ = ("@;
    assert(declaration(names).len() >= head.len());
    assert forall|i: int| 0 <= i < head.len() implies #[trigger] declaration(names)[i]
        == head[i] by {}
    assert forall|i: int| 0 <= i < head.len() implies after[at + i] == #[trigger] head[i] by {
        assert(after[at + i] == declaration(names)[i]);
    }
    assert(after.subrange(at, at + name.len()) =~= name) by {
        assert forall|i: int| 0 <= i < name.len() implies after[at + i] == #[trigger] name[i] by {
            assert(head[i] == name[i]);
        }
    }
    assert forall|i: int| s <= i < at implies is_blank(#[trigger] after[i]) by {
        assert(after[i] == text[i]);
    }
    if s > 0 {
        assert(after[s - 1] == text[s - 1]);
    }
    let b = at + 17;
    assert(after[at + 16] == head[16]);
    assert(after[at + 17] == head[17]);
    assert(declares_at(after, s, at, b));
}

} // verus!
