//! Laws of the declaration of lazy modules.
use vstd::prelude::*;

use crate::declaration::comma_separated;
use crate::declaration::declaration;
use crate::declaration::declares;
use crate::declaration::declares_at;
use crate::declaration::is_blank;
use crate::declaration::is_line_start;
use crate::declaration::quoted;

verus! {

/// Where a reader of quoted names stands.
pub struct Reading {
    /// Whether the last quote opened a name.
    pub is_open: bool,
    /// What has been read since.
    pub current: Seq<char>,
    /// The names that were closed.
    pub names: Seq<Seq<char>>,
}

/// Where a reader stands that has read `text`, character by character: a quote opens a name, and
/// the next one closes it.
pub open spec fn reading(text: Seq<char>) -> Reading
    decreases text.len(),
{
    if text.len() == 0 {
        Reading { is_open: false, current: Seq::empty(), names: Seq::empty() }
    } else {
        let before = reading(text.drop_last());
        let c = text.last();
        if c == '"' && before.is_open {
            Reading { is_open: false, current: Seq::empty(), names: before.names.push(before.current) }
        } else if c == '"' {
            Reading { is_open: true, ..before }
        } else if before.is_open {
            Reading { current: before.current.push(c), ..before }
        } else {
            before
        }
    }
}

/// The names between quotes in `text`.
pub open spec fn quoted_names(text: Seq<char>) -> Seq<Seq<char>> {
    reading(text).names
}

/// Whether a name can stand between quotes.
pub open spec fn is_plain(name: Seq<char>) -> bool {
    !name.contains('"')
}

proof fn lemma_reading_push(text: Seq<char>, c: char)
    ensures
        reading(text.push(c)) == ({
            let before = reading(text);
            if c == '"' && before.is_open {
                Reading {
                    is_open: false,
                    current: Seq::empty(),
                    names: before.names.push(before.current),
                }
            } else if c == '"' {
                Reading { is_open: true, ..before }
            } else if before.is_open {
                Reading { current: before.current.push(c), ..before }
            } else {
                before
            }
        }),
{
    assert(text.push(c).drop_last() =~= text);
}

proof fn lemma_reading_plain(text: Seq<char>, more: Seq<char>)
    requires
        is_plain(more),
    ensures
        reading(text).is_open ==> reading(text + more) == (Reading {
            current: reading(text).current + more,
            ..reading(text)
        }),
        !reading(text).is_open ==> reading(text + more) == reading(text),
    decreases more.len(),
{
    if more.len() == 0 {
        assert(text + more =~= text);
        assert(reading(text).current + more =~= reading(text).current);
    } else {
        let shorter = more.drop_last();
        let c = more.last();
        assert(more[more.len() - 1] == c);
        assert(is_plain(shorter)) by {
            if shorter.contains('"') {
                let i = shorter.index_of('"');
                assert(more[i] == '"');
            }
        }
        assert(c != '"');
        lemma_reading_plain(text, shorter);
        assert(text + more =~= (text + shorter).push(c));
        lemma_reading_push(text + shorter, c);
        assert(reading(text).current + more =~= (reading(text).current + shorter).push(c));
    }
}

proof fn lemma_reading_quoted(text: Seq<char>, name: Seq<char>)
    requires
        !reading(text).is_open,
        reading(text).current.len() == 0,
        is_plain(name),
    ensures
        reading(text + quoted(name)) == (Reading {
            is_open: false,
            current: Seq::empty(),
            names: reading(text).names.push(name),
        }),
{
    let opened = text.push('"');
    lemma_reading_push(text, '"');
    lemma_reading_plain(opened, name);
    assert(reading(text).current =~= Seq::<char>::empty());
    assert(reading(opened).current + name =~= name);
    lemma_reading_push(opened + name, '"');
    assert(text + quoted(name) =~= (opened + name).push('"'));
}

/// Whether every name can stand between quotes.
pub open spec fn are_plain(names: Seq<Seq<char>>) -> bool {
    forall|i: int| 0 <= i < names.len() ==> is_plain(#[trigger] names[i])
}

proof fn lemma_reading_separated(text: Seq<char>, names: Seq<Seq<char>>)
    requires
        !reading(text).is_open,
        reading(text).current.len() == 0,
        reading(text).names.len() == 0,
        are_plain(names),
    ensures
        reading(text + comma_separated(names)).names == names,
        !reading(text + comma_separated(names)).is_open,
        reading(text + comma_separated(names)).current.len() == 0,
    decreases names.len(),
{
    if names.len() == 0 {
        assert(text + comma_separated(names) =~= text);
        assert(reading(text).names =~= names);
    } else if names.len() == 1 {
        lemma_reading_quoted(text, names[0]);
        assert(reading(text).names.push(names[0]) =~= names);
    } else {
        let shorter = names.drop_last();
        assert forall|i: int| 0 <= i < shorter.len() implies is_plain(#[trigger] shorter[i]) by {
            assert(shorter[i] == names[i]);
        }
        assert(is_plain(names[names.len() - 1]));
        lemma_reading_separated(text, shorter);
        let front = text + comma_separated(shorter);
        reveal_strlit(", ");
        assert(is_plain(", "@));
        lemma_reading_plain(front, ", "@);
        lemma_reading_quoted(front + ", "@, names.last());
        assert(text + comma_separated(names) =~= front + ", "@ + quoted(names.last()));
        assert(shorter.push(names.last()) =~= names);
    }
}

/// The declaration holds exactly the names, each between quotes and unchanged, in their order.
pub proof fn lemma_declared_names(names: Seq<Seq<char>>)
    requires
        are_plain(names),
    ensures
        quoted_names(declaration(names)) == names,
        !reading(declaration(names)).is_open,
{
    let head = "__lazy_modules__ = ("@;
    reveal_strlit("__lazy_modules__ = (");
    reveal_strlit(",)\n");
    reveal_strlit(")\n");
    let none = Seq::<char>::empty();
    assert(is_plain(head));
    lemma_reading_plain(none, head);
    assert(none + head =~= head);
    assert(is_plain(",)\n"@));
    assert(is_plain(")\n"@));
    if names.len() == 1 {
        lemma_reading_quoted(head, names[0]);
        lemma_reading_plain(head + quoted(names[0]), ",)\n"@);
        assert(reading(head).names.push(names[0]) =~= names);
    } else {
        lemma_reading_separated(head, names);
        lemma_reading_plain(head + comma_separated(names), ")\n"@);
    }
}

/// The declaration is a tuple in one line: one name has a comma behind it, each further name one
/// before it.
pub proof fn lemma_declaration_text(names: Seq<Seq<char>>, name: Seq<char>, other: Seq<char>)
    ensures
        declaration(seq![name]) == "__lazy_modules__ = (\""@ + name + "\",)\n"@,
        declaration(seq![name, other]) == "__lazy_modules__ = (\""@ + name + "\", \""@ + other
            + "\")\n"@,
        names.len() >= 2 ==> {
            let before = declaration(names);
            let after = declaration(names.push(name));
            &&& before.len() > 2
            &&& before.skip(before.len() - 2) == ")\n"@
            &&& after == before.take(before.len() - 2) + ", \""@ + name + "\")\n"@
        },
{
    reveal_strlit("__lazy_modules__ = (");
    reveal_strlit("__lazy_modules__ = (\"");
    reveal_strlit(",)\n");
    reveal_strlit("\",)\n");
    reveal_strlit(")\n");
    reveal_strlit("\")\n");
    reveal_strlit(", ");
    reveal_strlit(", \"");
    reveal_strlit("\", \"");
    assert(declaration(seq![name]) =~= "__lazy_modules__ = (\""@ + name + "\",)\n"@);
    let two = seq![name, other];
    assert(two.drop_last() =~= seq![name]);
    assert(two.last() == other);
    assert(comma_separated(seq![name]) == quoted(name));
    assert(comma_separated(two) == quoted(name) + ", "@ + quoted(other));
    assert(declaration(two) =~= "__lazy_modules__ = (\""@ + name + "\", \""@ + other + "\")\n"@);
    if names.len() >= 2 {
        let before = declaration(names);
        let after = declaration(names.push(name));
        assert(names.push(name).drop_last() =~= names);
        assert(before.skip(before.len() - 2) =~= ")\n"@);
        assert(after =~= before.take(before.len() - 2) + ", \""@ + name + "\")\n"@);
    }
}

/// Whether the character is white space of Unicode, other than a line feed.
pub open spec fn is_space(c: char) -> bool {
    let code = c as u32;
    ||| c == ' '
    ||| c == '\t'
    ||| c == '\r'
    ||| code == 11
    ||| code == 12
    ||| code == 133
    ||| code == 160
    ||| code == 5760
    ||| 8192 <= code <= 8202
    ||| code == 8232
    ||| code == 8233
    ||| code == 8239
    ||| code == 8287
    ||| code == 12288
}

/// Whether `text` has `head`, at the beginning of a line, then spaces, the name, spaces and a
/// mark.
pub open spec fn has_line(
    text: Seq<char>,
    head: Seq<char>,
    spaces: Seq<char>,
    more: Seq<char>,
    mark: char,
    rest: Seq<char>,
) -> bool {
    &&& text == head + spaces + "__lazy_modules__"@ + more + seq![mark] + rest
    &&& head.len() == 0 || head.last() == '\n'
    &&& forall|i: int| 0 <= i < spaces.len() ==> is_space(#[trigger] spaces[i])
    &&& forall|i: int| 0 <= i < more.len() ==> is_space(#[trigger] more[i])
    &&& mark == '=' || mark == ':'
}

proof fn lemma_spaces(c: char)
    ensures
        is_blank(c) <==> is_space(c),
{
}

/// A text declares lazy modules exactly if one of its lines begins with the name and a `=` or a
/// `:`, with nothing but spaces around the name.
pub proof fn lemma_declaring_line(text: Seq<char>)
    ensures
        declares(text) <==> exists|
            head: Seq<char>,
            spaces: Seq<char>,
            more: Seq<char>,
            mark: char,
            rest: Seq<char>,
        |
            has_line(text, head, spaces, more, mark, rest),
{
    let name = "__lazy_modules__"@;
    if declares(text) {
        let (s, a, b) = choose|s: int, a: int, b: int| declares_at(text, s, a, b);
        let e = a + name.len();
        let head = text.take(s);
        let spaces = text.subrange(s, a);
        let more = text.subrange(e, b);
        let rest = text.skip(b + 1);
        assert(text =~= head + spaces + text.subrange(a, e) + more + seq![text[b]] + rest);
        assert forall|i: int| 0 <= i < spaces.len() implies is_space(#[trigger] spaces[i]) by {
            assert(spaces[i] == text[s + i]);
            lemma_spaces(text[s + i]);
        }
        assert forall|i: int| 0 <= i < more.len() implies is_space(#[trigger] more[i]) by {
            assert(more[i] == text[e + i]);
            lemma_spaces(text[e + i]);
        }
        assert(has_line(text, head, spaces, more, text[b], rest));
    }
    if exists|
        head: Seq<char>,
        spaces: Seq<char>,
        more: Seq<char>,
        mark: char,
        rest: Seq<char>,
    |
        has_line(text, head, spaces, more, mark, rest) {
        let (head, spaces, more, mark, rest) = choose|
            head: Seq<char>,
            spaces: Seq<char>,
            more: Seq<char>,
            mark: char,
            rest: Seq<char>,
        |
            has_line(text, head, spaces, more, mark, rest);
        let s = head.len() as int;
        let a = s + spaces.len();
        let e = a + name.len();
        let b = e + more.len();
        assert(text.subrange(a, e) =~= name);
        assert forall|i: int| s <= i < a implies is_blank(#[trigger] text[i]) by {
            assert(text[i] == spaces[i - s]);
            lemma_spaces(text[i]);
        }
        assert forall|i: int| e <= i < b implies is_blank(#[trigger] text[i]) by {
            assert(text[i] == more[i - e]);
            lemma_spaces(text[i]);
        }
        assert(text[b] == mark);
        assert(is_line_start(text, s));
        assert(declares_at(text, s, a, b));
    }
}

} // verus!
