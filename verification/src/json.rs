//! JSON texts, as `serde_json` writes and reads them.

use crate::text;
use crate::text::{cat3, join};
use vstd::prelude::*;

verus! {

/// The lower-case hexadecimal digit of `d`.
pub open spec fn hex_digit(d: nat) -> char {
    if d < 10 {
        (d + 48) as u32 as char
    } else {
        (d + 87) as u32 as char
    }
}

/// One character inside a JSON string.
pub open spec fn escaped_char(c: char) -> Seq<char> {
    let u = c as u32;
    if c == '"' || c == '\\' {
        seq!['\\', c]
    } else if u == 0x8 {
        seq!['\\', 'b']
    } else if u == 0x9 {
        seq!['\\', 't']
    } else if u == 0xA {
        seq!['\\', 'n']
    } else if u == 0xC {
        seq!['\\', 'f']
    } else if u == 0xD {
        seq!['\\', 'r']
    } else if u < 0x20 {
        seq!['\\', 'u', '0', '0', hex_digit(u as nat / 16), hex_digit(u as nat % 16)]
    } else {
        seq![c]
    }
}

/// A text inside a JSON string.
pub open spec fn escaped(s: Seq<char>) -> Seq<char>
    decreases s.len(),
{
    if s.len() == 0 {
        Seq::empty()
    } else {
        escaped(s.drop_last()) + escaped_char(s.last())
    }
}

/// The JSON string that stands for a text.
pub open spec fn quoted(s: Seq<char>) -> Seq<char> {
    seq!['"'] + escaped(s) + seq!['"']
}

/// The JSON string for `s`, by `serde_json::to_string` on a `str`.
///
/// Claimed of it: the text between double quotes, with `"` and `\` behind a
/// backslash, the short escapes for backspace, tab, line feed, form feed and
/// carriage return, `\u00xx` in lower case for the other characters below space,
/// and every other character as it is.
#[verifier::external_body]
pub(crate) fn json_string(s: &str) -> (r: String)
    ensures
        r@ == quoted(s@),
{
    serde_json::to_string(s).unwrap_or_default()
}

/// The JSON strings of some texts.
pub open spec fn all_quoted(s: Seq<Seq<char>>) -> Seq<Seq<char>> {
    s.map_values(|t: Seq<char>| quoted(t))
}

/// The JSON array that stands for some texts.
pub open spec fn texts_array(s: Seq<Seq<char>>) -> Seq<char> {
    "["@ + text::joined(all_quoted(s), ","@) + "]"@
}

/// The JSON array that stands for some texts.
pub fn json_texts(v: &Vec<String>) -> (r: String)
    ensures
        r@ == texts_array(text::texts(v@)),
{
    let ghost all = all_quoted(text::texts(v@));
    let mut strings: Vec<String> = Vec::new();
    let n: usize = v.len();
    assert(text::texts(strings@) =~= all.take(0));
    for i in 0..n
        invariant
            n == v@.len(),
            all == all_quoted(text::texts(v@)),
            text::texts(strings@) == all.take(i as int),
    {
        let t = json_string(v[i].as_str());
        proof {
            text::lemma_texts_push(strings@, t);
            assert(all.take(i as int + 1) =~= all.take(i as int).push(all[i as int]));
        }
        strings.push(t);
    }
    assert(all.take(n as int) =~= all);
    cat3("[", join(&strings, ",").as_str(), "]")
}

/// What `serde_json` says is wrong with a text that is no JSON document.
pub uninterp spec fn json_error_of(s: Seq<char>) -> Option<Seq<char>>;

/// What is wrong with `s` as a JSON document, by `serde_json::from_str` into a
/// `serde_json::Value`: `None` where it parses, else the text of the error.
///
/// Its result is a function of the text.
#[verifier::external_body]
pub(crate) fn json_error(s: &str) -> (r: Option<String>)
    ensures
        text::opt_text(r) == json_error_of(s@),
{
    serde_json::from_str::<serde_json::Value>(s).err().map(|e| e.to_string())
}

// ── Laws ────────────────────────────────────────────────────────────────────

/// The number that a hexadecimal digit stands for.
pub open spec fn hex_value(c: char) -> int {
    if '0' <= c <= '9' {
        c as int - 48
    } else {
        c as int - 87
    }
}

/// The character that an escape of one letter stands for.
pub open spec fn meant(c: char) -> char {
    if c == 'b' {
        '\u{8}'
    } else if c == 't' {
        '\t'
    } else if c == 'n' {
        '\n'
    } else if c == 'f' {
        '\u{c}'
    } else if c == 'r' {
        '\r'
    } else {
        c
    }
}

/// The text that the inside of a JSON string stands for, where its four-digit escapes are
/// those of control characters.
pub open spec fn unescaped(s: Seq<char>) -> Seq<char>
    decreases s.len(),
{
    if s.len() == 0 {
        Seq::empty()
    } else if s[0] != '\\' || s.len() == 1 {
        seq![s[0]] + unescaped(s.skip(1))
    } else if s[1] == 'u' && s.len() >= 6 {
        seq![(hex_value(s[4]) * 16 + hex_value(s[5])) as u32 as char] + unescaped(s.skip(6))
    } else {
        seq![meant(s[1])] + unescaped(s.skip(2))
    }
}

proof fn lemma_escaped_front(s: Seq<char>)
    requires
        s.len() > 0,
    ensures
        escaped(s) == escaped_char(s[0]) + escaped(s.skip(1)),
    decreases s.len(),
{
    if s.len() == 1 {
        assert(s.drop_last() =~= Seq::<char>::empty());
        assert(s.skip(1) =~= Seq::<char>::empty());
        assert(escaped(s) =~= escaped_char(s[0]) + escaped(s.skip(1)));
    } else {
        let t = s.drop_last();
        lemma_escaped_front(t);
        assert(s.skip(1).drop_last() =~= t.skip(1));
        assert(escaped(s) =~= escaped_char(s[0]) + escaped(s.skip(1)));
    }
}

proof fn lemma_unescape_one(c: char, rest: Seq<char>)
    ensures
        unescaped(escaped_char(c) + rest) == seq![c] + unescaped(rest),
{
    let e = escaped_char(c);
    let s = e + rest;
    let u = c as u32;
    assert(s[0] == e[0]);
    if e.len() == 6 {
        assert(s.skip(6) =~= rest);
        assert(u < 0x20);
        assert(s[1] == 'u');
        assert(s[4] == hex_digit(u as nat / 16));
        assert(s[5] == hex_digit(u as nat % 16));
        assert(hex_value(hex_digit(u as nat / 16)) == u / 16);
        assert(hex_value(hex_digit(u as nat % 16)) == u % 16);
        assert((u / 16) * 16 + u % 16 == u);
    } else if e.len() == 2 {
        assert(s.skip(2) =~= rest);
        assert(s[1] == e[1]);
    } else {
        assert(s.skip(1) =~= rest);
    }
}

/// A text that is quoted stands between quotation marks, and reads back as itself.
pub proof fn law_quoted_reads_back(s: Seq<char>)
    ensures
        quoted(s).len() >= 2,
        quoted(s)[0] == '"',
        quoted(s).last() == '"',
        unescaped(quoted(s).subrange(1, quoted(s).len() - 1)) == s,
    decreases s.len(),
{
    lemma_unescape_escaped(s);
    assert(quoted(s).subrange(1, quoted(s).len() - 1) =~= escaped(s));
}

proof fn lemma_unescape_escaped(s: Seq<char>)
    ensures
        unescaped(escaped(s)) == s,
    decreases s.len(),
{
    if s.len() > 0 {
        lemma_escaped_front(s);
        lemma_unescape_escaped(s.skip(1));
        lemma_unescape_one(s[0], escaped(s.skip(1)));
        assert(seq![s[0]] + s.skip(1) =~= s);
    } else {
        assert(unescaped(escaped(s)) =~= s);
    }
}

} // verus!
