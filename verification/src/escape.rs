//! JSON string escaping: what a string looks like between the quotes.

use vstd::prelude::*;

verus! {

/// The lower-case hexadecimal digit for `d`, which is below 16.
pub open spec fn hex_digit(d: int) -> char {
    seq!['0', '1', '2', '3', '4', '5', '6', '7', '8', '9', 'a', 'b', 'c', 'd', 'e', 'f'][d]
}

/// How one character stands in a JSON string: the quote, the backslash and
/// the control characters below U+0020 are escaped, with the short escape
/// where JSON has one and `\u00XX` where it has none; every other character
/// stands for itself.
pub open spec fn escaped_char(c: char) -> Seq<char> {
    if c == '"' {
        seq!['\\', '"']
    } else if c == '\\' {
        seq!['\\', '\\']
    } else if c == '\u{8}' {
        seq!['\\', 'b']
    } else if c == '\t' {
        seq!['\\', 't']
    } else if c == '\n' {
        seq!['\\', 'n']
    } else if c == '\u{c}' {
        seq!['\\', 'f']
    } else if c == '\r' {
        seq!['\\', 'r']
    } else if (c as u32) < 0x20 {
        seq!['\\', 'u', '0', '0', hex_digit(c as int / 16), hex_digit(c as int % 16)]
    } else {
        seq![c]
    }
}

/// `s` with each character escaped as a JSON string needs it.
pub open spec fn json_escaped(s: Seq<char>) -> Seq<char>
    decreases s.len(),
{
    if s.len() == 0 {
        Seq::empty()
    } else {
        json_escaped(s.drop_last()) + escaped_char(s.last())
    }
}

/// Calls `json_escape::escape_str` and collects what it yields: the input
/// with the quote, the backslash and each control character below U+0020
/// replaced by its escape, and everything else as it was.
#[verifier::external_body]
pub(crate) fn escape(s: &str) -> (r: String)
    ensures
        r@ == json_escaped(s@),
{
    let escaped: std::borrow::Cow<str> = json_escape::escape_str(s).into();
    escaped.into_owned()
}

/// The value of a hexadecimal digit.
pub open spec fn hex_value(c: char) -> int {
    if '0' <= c <= '9' {
        c as int - '0' as int
    } else {
        c as int - 'a' as int + 10
    }
}

/// The character that a short escape stands for, by the letter after the
/// backslash.
pub open spec fn unescaped_char(c: char) -> char {
    if c == 'b' {
        '\u{8}'
    } else if c == 't' {
        '\t'
    } else if c == 'n' {
        '\n'
    } else if c == 'f' {
        '\u{c}'
    } else if c == 'r' {
        '\r'
    } else {
        c
    }
}

/// What a reader of JSON makes of the text `t` between the quotes of a
/// string: every escape is replaced by the character it stands for.
pub open spec fn json_unescaped(t: Seq<char>) -> Seq<char>
    decreases t.len(),
{
    if t.len() == 0 {
        Seq::empty()
    } else if t[0] == '\\' && t.len() >= 2 {
        if t[1] == 'u' && t.len() >= 6 {
            seq![((16 * hex_value(t[4]) + hex_value(t[5])) as u8) as char] + json_unescaped(
                t.skip(6),
            )
        } else {
            seq![unescaped_char(t[1])] + json_unescaped(t.skip(2))
        }
    } else {
        seq![t[0]] + json_unescaped(t.skip(1))
    }
}

/// Escaping goes character by character from the front too.
pub proof fn lemma_escaped_from_front(s: Seq<char>)
    requires
        s.len() > 0,
    ensures
        json_escaped(s) == escaped_char(s[0]) + json_escaped(s.skip(1)),
    decreases s.len(),
{
    if s.len() == 1 {
        assert(s.drop_last() =~= Seq::<char>::empty());
        assert(s.skip(1) =~= Seq::<char>::empty());
        assert(json_escaped(s) =~= escaped_char(s[0]) + json_escaped(s.skip(1)));
    } else {
        lemma_escaped_from_front(s.drop_last());
        assert(s.drop_last().skip(1) =~= s.skip(1).drop_last());
        assert(s.skip(1).last() == s.last());
        assert(json_escaped(s) =~= escaped_char(s[0]) + json_escaped(s.skip(1)));
    }
}

/// A reader of JSON gets an escaped character back, whatever follows it.
pub proof fn lemma_unescaped_char(c: char, rest: Seq<char>)
    ensures
        json_unescaped(escaped_char(c) + rest) == seq![c] + json_unescaped(rest),
{
    let t = escaped_char(c) + rest;
    if c == '"' || c == '\\' || c == '\u{8}' || c == '\t' || c == '\n' || c == '\u{c}' || c
        == '\r' {
        assert(t.skip(2) =~= rest);
    } else if (c as u32) < 0x20 {
        assert(t.skip(6) =~= rest);
        let high = c as int / 16;
        let low = c as int % 16;
        assert(hex_value(hex_digit(high)) == high);
        assert(hex_value(hex_digit(low)) == low);
        assert(((16 * high + low) as u8) as char == c);
    } else {
        assert(t.skip(1) =~= rest);
    }
}

/// Escaping is undone by reading: a reader of JSON gets from the escaped
/// text the string that was escaped, so nothing is escaped twice and nothing
/// is left unescaped.
pub proof fn law_escaping_is_read_back(s: Seq<char>)
    ensures
        json_unescaped(json_escaped(s)) == s,
    decreases s.len(),
{
    if s.len() > 0 {
        lemma_escaped_from_front(s);
        lemma_unescaped_char(s[0], json_escaped(s.skip(1)));
        law_escaping_is_read_back(s.skip(1));
        assert(seq![s[0]] + s.skip(1) =~= s);
    }
}

/// An escaped character is fit to stand between quotes: it holds no
/// control character, and no quote that a backslash does not come before.
pub proof fn lemma_escaped_char_is_clean(c: char, k: int)
    requires
        0 <= k < escaped_char(c).len(),
    ensures
        escaped_char(c)[k] as u32 >= 0x20,
        escaped_char(c)[k] == '"' ==> k > 0 && escaped_char(c)[k - 1] == '\\',
{
    if (c as u32) < 0x20 {
        let high = c as int / 16;
        let low = c as int % 16;
        assert(hex_value(hex_digit(high)) == high);
        assert(hex_value(hex_digit(low)) == low);
    }
}

/// Escaped text is fit to stand between quotes: it holds no control
/// character, and no quote that a backslash does not come before.
pub proof fn law_escaped_is_clean(s: Seq<char>, i: int)
    requires
        0 <= i < json_escaped(s).len(),
    ensures
        json_escaped(s)[i] as u32 >= 0x20,
        json_escaped(s)[i] == '"' ==> i > 0 && json_escaped(s)[i - 1] == '\\',
    decreases s.len(),
{
    if s.len() > 0 {
        let front = json_escaped(s.drop_last());
        let last = escaped_char(s.last());
        if i < front.len() {
            law_escaped_is_clean(s.drop_last(), i);
            assert(json_escaped(s)[i] == front[i]);
            if i > 0 {
                assert(json_escaped(s)[i - 1] == front[i - 1]);
            }
        } else {
            let k = i - front.len();
            lemma_escaped_char_is_clean(s.last(), k);
            assert(json_escaped(s)[i] == last[k]);
            if k > 0 {
                assert(json_escaped(s)[i - 1] == last[k - 1]);
            }
        }
    }
}

} // verus!
