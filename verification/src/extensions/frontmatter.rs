//! The header of a skill file.
//!
//! A skill file starts with `key: value` lines between two `---` lines; the rest
//! is its body. A value is a plain or quoted text, a block behind `|` or `>`, or a
//! list of `- item` lines, which are joined with commas.

use crate::text;
use crate::text::{chars_of, find, join, lines, same, skip_back, skip_while, stands_at, text_of, trim};
use vstd::prelude::*;
use vstd::slice::slice_subrange;
use vstd::string::*;

verus! {

// ── Quoting ─────────────────────────────────────────────────────────────────

/// What stands for a character between double quotes.
pub open spec fn escape_char(c: char) -> Seq<char> {
    if c == '\\' {
        seq!['\\', '\\']
    } else if c == '"' {
        seq!['\\', '"']
    } else if c == '\n' {
        seq!['\\', 'n']
    } else if c == '\r' {
        seq!['\\', 'r']
    } else {
        seq![c]
    }
}

/// What stands for a text between double quotes.
pub open spec fn escaped(s: Seq<char>) -> Seq<char>
    decreases s.len(),
{
    if s.len() == 0 {
        Seq::empty()
    } else {
        escape_char(s[0]) + escaped(s.skip(1))
    }
}

/// A text between double quotes.
pub open spec fn quoted(s: Seq<char>) -> Seq<char> {
    seq!['"'] + escaped(s) + seq!['"']
}

/// What a backslash and a character stand for. An escape that is not known stays
/// as it is.
pub open spec fn unescape_pair(c: char) -> Seq<char> {
    if c == 'n' {
        seq!['\n']
    } else if c == 'r' {
        seq!['\r']
    } else if c == 't' {
        seq!['\t']
    } else if c == '"' {
        seq!['"']
    } else if c == '\\' {
        seq!['\\']
    } else {
        seq!['\\', c]
    }
}

/// What a text between double quotes stands for.
pub open spec fn unescaped(s: Seq<char>) -> Seq<char>
    decreases s.len(),
{
    if s.len() == 0 {
        Seq::empty()
    } else if s[0] != '\\' {
        seq![s[0]] + unescaped(s.skip(1))
    } else if s.len() == 1 {
        seq!['\\']
    } else {
        unescape_pair(s[1]) + unescaped(s.skip(2))
    }
}

/// Whether a text starts and ends with `q`.
pub open spec fn between(s: Seq<char>, q: char) -> bool {
    s.len() >= 2 && s[0] == q && s.last() == q
}

/// What a value stands for. Only a quoted one changes.
pub open spec fn unquoted(s: Seq<char>) -> Seq<char> {
    let t = text::trim_of(s);
    if between(t, '"') {
        unescaped(t.subrange(1, t.len() - 1))
    } else if between(t, '\'') {
        t.subrange(1, t.len() - 1)
    } else {
        s
    }
}

/// Puts a text between double quotes.
pub fn yaml_quote(s: &str) -> (r: String)
    ensures
        r@ == quoted(s@),
{
    let v = chars_of(s);
    let n: usize = v.len();
    let mut r = String::new();
    r.push('"');
    let ghost mut done: Seq<char> = Seq::empty();
    assert(v@.skip(0) =~= v@);
    assert(done + escaped(v@) =~= escaped(v@));
    for i in 0..n
        invariant
            n == v@.len(),
            r@ == seq!['"'] + done,
            done + escaped(v@.skip(i as int)) == escaped(v@),
    {
        let c = v[i];
        let ghost before = done;
        if c == '\\' {
            r.push('\\');
            r.push('\\');
        } else if c == '"' {
            r.push('\\');
            r.push('"');
        } else if c == '\n' {
            r.push('\\');
            r.push('n');
        } else if c == '\r' {
            r.push('\\');
            r.push('r');
        } else {
            r.push(c);
        }
        proof {
            done = before + escape_char(c);
            assert(r@ =~= seq!['"'] + done);
            assert(v@.skip(i as int)[0] == c);
            assert(v@.skip(i as int).skip(1) =~= v@.skip(i + 1));
            assert(done + escaped(v@.skip(i + 1)) =~= before + escaped(v@.skip(i as int)));
        }
    }
    r.push('"');
    assert(v@.skip(n as int) =~= Seq::empty());
    assert(r@ =~= quoted(s@));
    r
}

fn unescape(v: &[char]) -> (r: String)
    ensures
        r@ == unescaped(v@),
{
    let n: usize = v.len();
    let mut r = String::new();
    let mut i: usize = 0;
    assert(v@.skip(0) =~= v@);
    assert(r@ + unescaped(v@) =~= unescaped(v@));
    while i < n
        invariant
            i <= n == v@.len(),
            r@ + unescaped(v@.skip(i as int)) == unescaped(v@),
        decreases n - i,
    {
        let c = v[i];
        let ghost before = r@;
        let ghost rest = v@.skip(i as int);
        assert(rest[0] == c);
        if c != '\\' {
            r.push(c);
            proof {
                assert(rest.skip(1) =~= v@.skip(i + 1));
                assert(r@ + unescaped(v@.skip(i + 1)) =~= before + unescaped(rest));
            }
            i = i + 1;
        } else if i + 1 == n {
            r.push('\\');
            proof {
                assert(v@.skip(n as int) =~= Seq::empty());
                assert(r@ + unescaped(v@.skip(n as int)) =~= before + unescaped(rest));
            }
            i = n;
        } else {
            let d = v[i + 1];
            assert(rest[1] == d);
            if d == 'n' {
                r.push('\n');
            } else if d == 'r' {
                r.push('\r');
            } else if d == 't' {
                r.push('\t');
            } else if d == '"' {
                r.push('"');
            } else if d == '\\' {
                r.push('\\');
            } else {
                r.push('\\');
                r.push(d);
            }
            proof {
                assert(r@ =~= before + unescape_pair(d));
                assert(rest.skip(2) =~= v@.skip(i + 2));
                assert(r@ + unescaped(v@.skip(i + 2)) =~= before + unescaped(rest));
            }
            i = i + 2;
        }
    }
    assert(v@.skip(n as int) =~= Seq::empty());
    assert(r@ + unescaped(v@.skip(n as int)) =~= r@);
    r
}

/// What a value stands for.
pub fn unquote_yaml(s: &str) -> (r: String)
    ensures
        r@ == unquoted(s@),
{
    let v = chars_of(s);
    let t = trim(v.as_slice());
    let n: usize = t.len();
    if n >= 2 && t[0] == '"' && t[n - 1] == '"' {
        return unescape(slice_subrange(t, 1, n - 1));
    }
    if n >= 2 && t[0] == '\'' && t[n - 1] == '\'' {
        return text_of(slice_subrange(t, 1, n - 1));
    }
    s.to_string()
}

/// What stands for a character stands for it again behind any text.
proof fn lemma_unescape_one(c: char, t: Seq<char>)
    ensures
        unescaped(escape_char(c) + t) == seq![c] + unescaped(t),
{
    let s = escape_char(c) + t;
    if c == '\\' || c == '"' || c == '\n' || c == '\r' {
        assert(s.skip(2) =~= t);
    } else {
        assert(s.skip(1) =~= t);
    }
}

proof fn lemma_unescape_escaped(s: Seq<char>)
    ensures
        unescaped(escaped(s)) == s,
    decreases s.len(),
{
    if s.len() > 0 {
        lemma_unescape_escaped(s.skip(1));
        lemma_unescape_one(s[0], escaped(s.skip(1)));
        assert(seq![s[0]] + s.skip(1) =~= s);
    } else {
        assert(unescaped(escaped(s)) =~= s);
    }
}

/// A text with no whitespace at its ends is its own trimmed text.
pub proof fn lemma_trim_of_tight(s: Seq<char>)
    requires
        s.len() > 0 ==> !text::is_ws(s[0]) && !text::is_ws(s.last()),
    ensures
        text::trim_of(s) == s,
{
}

/// Quoting a text and reading it back gives the text.
pub proof fn law_unquote_undoes_quote(s: Seq<char>)
    ensures
        unquoted(quoted(s)) == s,
{
    let q = quoted(s);
    assert(q[0] == '"' && q.last() == '"');
    lemma_trim_of_tight(q);
    assert(q.subrange(1, q.len() - 1) =~= escaped(s));
    lemma_unescape_escaped(s);
}

// ── Lines ───────────────────────────────────────────────────────────────────

/// How many bytes of whitespace a line starts with.
pub open spec fn indent_of(s: Seq<char>) -> nat
    decreases s.len(),
{
    if s.len() > 0 && text::is_ws(s[0]) {
        text::width(s[0]) + indent_of(s.skip(1))
    } else {
        0
    }
}

/// A line without its first `n` bytes, and without the rest of a character that
/// they end in.
pub open spec fn outdented(s: Seq<char>, n: int) -> Seq<char>
    decreases s.len(),
{
    if n <= 0 || s.len() == 0 {
        s
    } else {
        outdented(s.skip(1), n - text::width(s[0]))
    }
}

/// Whether a line is whitespace only.
pub open spec fn is_blank(s: Seq<char>) -> bool {
    text::trim_of(s).len() == 0
}

fn indent(s: &[char]) -> (r: u128)
    ensures
        r == indent_of(s@),
{
    let n: usize = s.len();
    let mut i: usize = 0;
    let mut sum: u128 = 0;
    assert(s@.skip(0) =~= s@);
    while i < n && text::is_whitespace(s[i])
        invariant
            i <= n == s@.len(),
            sum <= 4 * i,
            sum + indent_of(s@.skip(i as int)) == indent_of(s@),
        decreases n - i,
    {
        proof {
            assert(s@.skip(i as int)[0] == s@[i as int]);
            assert(s@.skip(i as int).skip(1) =~= s@.skip(i + 1));
        }
        sum = sum + text::char_width(s[i]);
        i = i + 1;
    }
    proof {
        if i < n {
            assert(s@.skip(i as int)[0] == s@[i as int]);
        }
    }
    sum
}

fn outdent(s: &[char], n: u128) -> (r: String)
    ensures
        r@ == outdented(s@, n as int),
{
    let len: usize = s.len();
    let mut i: usize = 0;
    let mut left: u128 = n;
    assert(s@.skip(0) =~= s@);
    while i < len && left > 0
        invariant
            i <= len == s@.len(),
            outdented(s@.skip(i as int), left as int) == outdented(s@, n as int),
        decreases len - i,
    {
        proof {
            assert(s@.skip(i as int)[0] == s@[i as int]);
            assert(s@.skip(i as int).skip(1) =~= s@.skip(i + 1));
        }
        let w: u128 = text::char_width(s[i]);
        i = i + 1;
        if w >= left {
            proof {
                assert(outdented(s@.skip(i as int), left - w) == s@.skip(i as int));
                assert(outdented(s@.skip(i as int), 0) == s@.skip(i as int));
            }
            left = 0;
        } else {
            left = left - w;
        }
    }
    let rest = slice_subrange(s, i, len);
    assert(rest@ =~= s@.skip(i as int));
    text_of(rest)
}

fn blank(s: &[char]) -> (b: bool)
    ensures
        b == is_blank(s@),
{
    trim(s).len() == 0
}

// ── Keys ────────────────────────────────────────────────────────────────────

/// Whether a character can stand in a key.
pub open spec fn is_key_char(c: char) -> bool {
    text::is_ascii_word(c) || c == '_' || c == '-'
}

/// Whether a key can start with a character.
pub open spec fn starts_key(c: char) -> bool {
    'a' <= c <= 'z' || 'A' <= c <= 'Z' || c == '_'
}

/// Whether a line is a key, a colon and a value.
pub open spec fn is_pair(line: Seq<char>) -> bool {
    let p = text::first_at(line, ":"@);
    &&& p > 0
    &&& starts_key(line[0])
    &&& forall|i: int| 0 <= i < p ==> is_key_char(#[trigger] line[i])
}

fn key_char(c: char) -> (b: bool)
    ensures
        b == is_key_char(c),
{
    let u: u32 = c as u32;
    (48 <= u && u <= 57) || (65 <= u && u <= 90) || (97 <= u && u <= 122) || c == '_' || c == '-'
}

/// Whether a trimmed line is a key, a colon and a value.
pub fn is_key_value_line(line: &[char]) -> (b: bool)
    ensures
        b == is_pair(line@),
{
    let colon = chars_of(":");
    let p: usize = match find(line, colon.as_slice()) {
        Some(p) => p,
        None => return false,
    };
    if p == 0 {
        return false;
    }
    proof {
        reveal_strlit(":");
        text::lemma_first_at(line@, ":"@);
    }
    let first: u32 = line[0] as u32;
    if !((65 <= first && first <= 90) || (97 <= first && first <= 122) || line[0] == '_') {
        return false;
    }
    for i in 0..p
        invariant
            p <= line@.len(),
            forall|k: int| 0 <= k < i ==> is_key_char(#[trigger] line@[k]),
            p == text::first_at(line@, ":"@),
    {
        if !key_char(line[i]) {
            assert(!is_key_char(line@[i as int]));
            return false;
        }
    }
    true
}

/// The key of a line.
pub open spec fn key_in(line: Seq<char>) -> Seq<char> {
    text::trim_of(line.take(text::first_at(line, ":"@)))
}

/// The value of a line.
pub open spec fn value_in(line: Seq<char>) -> Seq<char> {
    text::trim_of(line.skip(text::first_at(line, ":"@) + 1))
}

// ── Blocks ──────────────────────────────────────────────────────────────────

/// What may follow the sign of a block.
pub open spec fn chomping() -> spec_fn(char) -> bool {
    |c: char| c == '-' || c == '+'
}

/// The sign of a block: a bar keeps its lines, an angle bracket folds them.
pub open spec fn block_sign(value: Seq<char>) -> Seq<char> {
    text::cut_back(value, chomping())
}

/// Where the block ends whose lines start at `j`, under a key at `indent`.
pub open spec fn block_end(lines: Seq<Seq<char>>, j: int, indent: nat) -> int
    decreases lines.len() - j,
{
    if 0 <= j < lines.len() && (is_blank(lines[j]) || indent_of(lines[j]) > indent) {
        block_end(lines, j + 1, indent)
    } else {
        j
    }
}

/// The indent of a block: that of its first line that is not blank.
pub open spec fn block_indent(lines: Seq<Seq<char>>, j: int, end: int) -> nat
    decreases end - j,
{
    if j >= end {
        0
    } else if is_blank(lines[j]) {
        block_indent(lines, j + 1, end)
    } else {
        indent_of(lines[j])
    }
}

/// A line of a block without its indent.
pub open spec fn block_line(line: Seq<char>, indent: nat) -> Seq<char> {
    if is_blank(line) {
        Seq::empty()
    } else {
        outdented(
            line,
            if indent_of(line) >= indent {
                indent as int
            } else {
                indent_of(line) as int
            },
        )
    }
}

/// The lines of a block without their indent.
pub open spec fn block_lines(lines: Seq<Seq<char>>, from: int, end: int) -> Seq<Seq<char>> {
    Seq::new(
        (end - from) as nat,
        |k: int| block_line(lines[from + k], block_indent(lines, from, end)),
    )
}

/// Lines without the blank ones at their end.
pub open spec fn without_blank_tail(s: Seq<Seq<char>>) -> Seq<Seq<char>>
    decreases s.len(),
{
    if s.len() > 0 && is_blank(s.last()) {
        without_blank_tail(s.drop_last())
    } else {
        s
    }
}

/// Folded lines, and whether the last one was blank.
pub struct Folded {
    pub text: Seq<char>,
    pub blank: bool,
}

/// The first `n` lines, folded: a space between lines, a line feed for a blank
/// one.
pub open spec fn folded(s: Seq<Seq<char>>, n: int) -> Folded
    decreases n,
{
    if n <= 0 {
        Folded { text: Seq::empty(), blank: true }
    } else {
        let f = folded(s, n - 1);
        let line = s[n - 1];
        if is_blank(line) {
            Folded { text: f.text.push('\n'), blank: true }
        } else if !f.blank && f.text.len() > 0 {
            Folded { text: f.text.push(' ') + line, blank: false }
        } else {
            Folded { text: f.text + line, blank: false }
        }
    }
}

/// The value of a block.
pub open spec fn block_value(lines: Seq<Seq<char>>, from: int, end: int, value: Seq<char>) -> Seq<
    char,
> {
    let kept = without_blank_tail(block_lines(lines, from, end));
    let body = if block_sign(value) == ">"@ {
        folded(kept, kept.len() as int).text
    } else {
        text::joined(kept, "\n"@)
    };
    if value.last() == '-' {
        body
    } else {
        body.push('\n')
    }
}

fn is_chomping(c: char) -> (b: bool)
    ensures
        b == chomping()(c),
{
    c == '-' || c == '+'
}

proof fn lemma_block_end(lines: Seq<Seq<char>>, j: int, indent: nat)
    requires
        0 <= j <= lines.len(),
    ensures
        j <= block_end(lines, j, indent) <= lines.len(),
    decreases lines.len() - j,
{
    if j < lines.len() && (is_blank(lines[j]) || indent_of(lines[j]) > indent) {
        lemma_block_end(lines, j + 1, indent);
    }
}

fn find_block_end(lines: &Vec<Vec<char>>, from: usize, ind: u128) -> (r: usize)
    requires
        from <= lines@.len(),
    ensures
        r == block_end(text::char_views(lines@), from as int, ind as nat),
        from <= r <= lines@.len(),
{
    let ghost s = text::char_views(lines@);
    let n: usize = lines.len();
    let mut j: usize = from;
    while j < n
        invariant
            from <= j <= n == lines@.len(),
            s == text::char_views(lines@),
            block_end(s, from as int, ind as nat) == block_end(s, j as int, ind as nat),
        decreases n - j,
    {
        assert(lines@[j as int]@ == s[j as int]);
        let l = lines[j].as_slice();
        if !blank(l) && indent(l) <= ind {
            return j;
        }
        j = j + 1;
    }
    j
}

fn find_block_indent(lines: &Vec<Vec<char>>, from: usize, end: usize) -> (r: u128)
    requires
        from <= end <= lines@.len(),
    ensures
        r == block_indent(text::char_views(lines@), from as int, end as int),
{
    let ghost s = text::char_views(lines@);
    let mut j: usize = from;
    while j < end
        invariant
            from <= j <= end <= lines@.len(),
            s == text::char_views(lines@),
            block_indent(s, from as int, end as int) == block_indent(s, j as int, end as int),
        decreases end - j,
    {
        assert(lines@[j as int]@ == s[j as int]);
        let l = lines[j].as_slice();
        if !blank(l) {
            return indent(l);
        }
        j = j + 1;
    }
    0
}

fn str_blank(s: &str) -> (b: bool)
    ensures
        b == is_blank(s@),
{
    blank(chars_of(s).as_slice())
}

fn read_block(lines: &Vec<Vec<char>>, from: usize, end: usize, value: &[char]) -> (r: String)
    requires
        from <= end <= lines@.len(),
        value@.len() > 0,
    ensures
        r@ == block_value(text::char_views(lines@), from as int, end as int, value@),
{
    let ghost s = text::char_views(lines@);
    let ghost all = block_lines(s, from as int, end as int);
    let bi: u128 = find_block_indent(lines, from, end);
    let mut block: Vec<String> = Vec::new();
    assert(text::texts(block@) =~= all.take(0));
    for j in from..end
        invariant
            from <= j <= end <= lines@.len(),
            s == text::char_views(lines@),
            bi == block_indent(s, from as int, end as int),
            all == block_lines(s, from as int, end as int),
            text::texts(block@) == all.take(j - from),
    {
        assert(lines@[j as int]@ == s[j as int]);
        let l = lines[j].as_slice();
        let line = if blank(l) {
            String::new()
        } else {
            let li: u128 = indent(l);
            outdent(
                l,
                if li >= bi {
                    bi
                } else {
                    li
                },
            )
        };
        proof {
            assert(line@ =~= all[j - from]);
            text::lemma_texts_push(block@, line);
            assert(all.take(j - from + 1) =~= all.take(j - from).push(all[j - from]));
        }
        block.push(line);
    }
    assert(all.take(end - from) =~= all);
    while block.len() > 0 && str_blank(block[block.len() - 1].as_str())
        invariant
            without_blank_tail(text::texts(block@)) == without_blank_tail(all),
        decreases block@.len(),
    {
        let ghost before = block@;
        let _ = block.pop();
        assert(text::texts(block@) =~= text::texts(before).drop_last());
        assert(text::texts(before).last() == before[before.len() - 1]@);
    }
    let ghost kept = text::texts(block@);
    proof {
        if block@.len() > 0 {
            assert(kept.last() == block@[block@.len() - 1]@);
        }
        assert(kept == without_blank_tail(all));
    }
    let sign = skip_back(value, is_chomping, Ghost(chomping()));
    let folds = same(text_of(sign).as_str(), ">");
    let n: usize = value.len();
    let keeps = value[n - 1] != '-';
    let mut r = if folds {
        fold(&block)
    } else {
        join(&block, "\n")
    };
    if keeps {
        r.push('\n');
    }
    r
}

fn fold(block: &Vec<String>) -> (r: String)
    ensures
        r@ == folded(text::texts(block@), block@.len() as int).text,
{
    let ghost s = text::texts(block@);
    let n: usize = block.len();
    let mut t = String::new();
    let mut prev_blank = true;
    for i in 0..n
        invariant
            n == block@.len(),
            s == text::texts(block@),
            t@ == folded(s, i as int).text,
            prev_blank == folded(s, i as int).blank,
    {
        assert(s[i as int] == block@[i as int]@);
        let l = block[i].as_str();
        if str_blank(l) {
            t.push('\n');
            prev_blank = true;
        } else {
            if !prev_blank && !t.as_str().is_empty() {
                t.push(' ');
            }
            t.append(l);
            prev_blank = false;
        }
    }
    t
}

// ── Lists ───────────────────────────────────────────────────────────────────

/// The items of a list, and where it ends.
pub struct Items {
    pub items: Seq<Seq<char>>,
    pub end: int,
}

/// Double quotes.
pub open spec fn double_quote() -> spec_fn(char) -> bool {
    |c: char| c == '"'
}

/// Single quotes.
pub open spec fn single_quote() -> spec_fn(char) -> bool {
    |c: char| c == '\''
}

/// A text without quotes around it.
pub open spec fn bare(s: Seq<char>) -> Seq<char> {
    text::stripped(text::stripped(s, double_quote()), single_quote())
}

/// The items with a line added to the last one.
pub open spec fn continued(items: Seq<Seq<char>>, line: Seq<char>) -> Seq<Seq<char>> {
    items.update(items.len() - 1, items.last().push(' ') + line)
}

/// The list that goes on at `j`, under a key at `indent`: `- ` starts an item, and
/// a deeper line goes on with the last one.
pub open spec fn list_from(
    lines: Seq<Seq<char>>,
    j: int,
    indent: nat,
    items: Seq<Seq<char>>,
) -> Items
    decreases lines.len() - j,
{
    if j < 0 || j >= lines.len() {
        Items { items, end: j }
    } else {
        let line = text::trim_of(lines[j]);
        if line.len() == 0 {
            list_from(lines, j + 1, indent, items)
        } else if indent_of(lines[j]) >= indent && text::starts(line, "- "@) {
            list_from(lines, j + 1, indent, items.push(bare(text::trim_of(line.skip(2)))))
        } else if indent_of(lines[j]) > indent && items.len() > 0 {
            list_from(lines, j + 1, indent, continued(items, line))
        } else {
            Items { items, end: j }
        }
    }
}

proof fn lemma_list_end(lines: Seq<Seq<char>>, j: int, indent: nat, items: Seq<Seq<char>>)
    requires
        0 <= j <= lines.len(),
    ensures
        j <= list_from(lines, j, indent, items).end <= lines.len(),
    decreases lines.len() - j,
{
    if j < lines.len() {
        let line = text::trim_of(lines[j]);
        if line.len() == 0 {
            lemma_list_end(lines, j + 1, indent, items);
        } else if indent_of(lines[j]) >= indent && text::starts(line, "- "@) {
            lemma_list_end(
                lines,
                j + 1,
                indent,
                items.push(bare(text::trim_of(line.skip(2)))),
            );
        } else if indent_of(lines[j]) > indent && items.len() > 0 {
            lemma_list_end(lines, j + 1, indent, continued(items, line));
        }
    }
}

fn is_double_quote(c: char) -> (b: bool)
    ensures
        b == double_quote()(c),
{
    c == '"'
}

fn is_single_quote(c: char) -> (b: bool)
    ensures
        b == single_quote()(c),
{
    c == '\''
}

/// Drops the quotes around a text.
pub fn unwrap_quotes<'a>(s: &'a [char]) -> (r: &'a [char])
    ensures
        r@ == bare(s@),
{
    let a = skip_back(
        skip_while(s, is_double_quote, Ghost(double_quote())),
        is_double_quote,
        Ghost(double_quote()),
    );
    skip_back(
        skip_while(a, is_single_quote, Ghost(single_quote())),
        is_single_quote,
        Ghost(single_quote()),
    )
}

fn read_list(lines: &Vec<Vec<char>>, from: usize, ind: u128) -> (r: (Vec<String>, usize))
    requires
        from <= lines@.len(),
    ensures
        text::texts(r.0@) == list_from(
            text::char_views(lines@),
            from as int,
            ind as nat,
            Seq::empty(),
        ).items,
        r.1 == list_from(text::char_views(lines@), from as int, ind as nat, Seq::empty()).end,
        from <= r.1 <= lines@.len(),
{
    let ghost s = text::char_views(lines@);
    let ghost target = list_from(s, from as int, ind as nat, Seq::empty());
    let n: usize = lines.len();
    let mut items: Vec<String> = Vec::new();
    let mut j: usize = from;
    let dash = chars_of("- ");
    assert(text::texts(items@) =~= Seq::empty());
    while j < n
        invariant
            from <= j <= n == lines@.len(),
            s == text::char_views(lines@),
            dash@ == "- "@,
            target == list_from(s, from as int, ind as nat, Seq::empty()),
            list_from(s, j as int, ind as nat, text::texts(items@)) == target,
        decreases n - j,
    {
        assert(lines@[j as int]@ == s[j as int]);
        let l = lines[j].as_slice();
        let lt = trim(l);
        let m: usize = lt.len();
        if m == 0 {
            j = j + 1;
            continue;
        }
        let li: u128 = indent(l);
        if li >= ind && m >= dash.len() && stands_at(lt, dash.as_slice(), 0) {
            proof {
                reveal_strlit("- ");
            }
            let behind = slice_subrange(lt, 2, m);
            assert(behind@ =~= lt@.skip(2));
            let item = text_of(unwrap_quotes(trim(behind)));
            proof {
                text::lemma_texts_push(items@, item);
            }
            items.push(item);
            j = j + 1;
            continue;
        }
        let k: usize = items.len();
        if li > ind && k > 0 {
            let ghost before = text::texts(items@);
            let mut last = items[k - 1].clone();
            last.push(' ');
            last.append(text_of(lt).as_str());
            items.set(k - 1, last);
            assert(text::texts(items@) =~= continued(before, lt@));
            j = j + 1;
            continue;
        }
        return (items, j);
    }
    (items, j)
}

// ── Fields ──────────────────────────────────────────────────────────────────

/// One field of a header.
#[derive(Debug, PartialEq, Eq)]
pub struct Field {
    pub key: String,
    pub value: String,
}

/// One field of a header, as a value.
#[verifier::ext_equal]
pub struct FieldView {
    pub key: Seq<char>,
    pub value: Seq<char>,
}

impl View for Field {
    type V = FieldView;

    open spec fn view(&self) -> FieldView {
        FieldView { key: self.key@, value: self.value@ }
    }
}

/// The values of the fields of a header.
pub open spec fn field_views(v: Seq<Field>) -> Seq<FieldView> {
    v.map_values(|f: Field| f@)
}

/// The field that starts at line `i`, and the line after it; none where the line
/// starts no field.
pub open spec fn field_at(lines: Seq<Seq<char>>, i: int) -> (Option<FieldView>, int) {
    let line = text::trim_of(lines[i]);
    if !is_pair(line) {
        (None, i + 1)
    } else {
        let key = key_in(line);
        let value = value_in(line);
        let indent = indent_of(lines[i]);
        let sign = block_sign(value);
        let list = list_from(lines, i + 1, indent, Seq::empty());
        if sign == "|"@ || sign == ">"@ {
            let end = block_end(lines, i + 1, indent);
            (Some(FieldView { key, value: block_value(lines, i + 1, end, value) }), end)
        } else if value.len() == 0 && list.items.len() > 0 {
            (Some(FieldView { key, value: text::joined(list.items, ", "@) }), list.end)
        } else {
            (Some(FieldView { key, value }), i + 1)
        }
    }
}

/// The fields that start at line `i` or after it.
pub open spec fn fields_from(lines: Seq<Seq<char>>, i: int) -> Seq<FieldView>
    decreases lines.len() - i,
    via fields_decrease
{
    if i < 0 || i >= lines.len() {
        Seq::empty()
    } else {
        let f = field_at(lines, i);
        match f.0 {
            Some(field) => seq![field] + fields_from(lines, f.1),
            None => fields_from(lines, f.1),
        }
    }
}

#[via_fn]
proof fn fields_decrease(lines: Seq<Seq<char>>, i: int) {
    if 0 <= i < lines.len() {
        lemma_field_end(lines, i);
    }
}

proof fn lemma_field_end(lines: Seq<Seq<char>>, i: int)
    requires
        0 <= i < lines.len(),
    ensures
        i < field_at(lines, i).1 <= lines.len(),
{
    let indent = indent_of(lines[i]);
    lemma_block_end(lines, i + 1, indent);
    lemma_list_end(lines, i + 1, indent, Seq::empty());
}

fn read_field(lines: &Vec<Vec<char>>, i: usize) -> (r: (Option<Field>, usize))
    requires
        i < lines@.len(),
    ensures
        r.1 == field_at(text::char_views(lines@), i as int).1,
        match r.0 {
            Some(f) => field_at(text::char_views(lines@), i as int).0 == Some(f@),
            None => field_at(text::char_views(lines@), i as int).0 is None,
        },
{
    let ghost s = text::char_views(lines@);
    let total: usize = lines.len();
    assert(i < total);
    assert(lines@[i as int]@ == s[i as int]);
    let raw = lines[i].as_slice();
    let line = trim(raw);
    if !is_key_value_line(line) {
        return (None, i + 1);
    }
    let colon = chars_of(":");
    let n: usize = line.len();
    let p: usize = match find(line, colon.as_slice()) {
        Some(p) => p,
        None => return (None, i + 1),
    };
    proof {
        reveal_strlit(":");
        reveal_strlit("|");
        reveal_strlit(">");
    }
    let head = slice_subrange(line, 0, p);
    let tail = slice_subrange(line, p + 1, n);
    assert(head@ =~= line@.take(p as int));
    assert(tail@ =~= line@.skip(p + 1));
    let key = text_of(trim(head));
    let value = trim(tail);
    let ind: u128 = indent(raw);
    let sign = text_of(skip_back(value, is_chomping, Ghost(chomping())));
    if same(sign.as_str(), "|") || same(sign.as_str(), ">") {
        proof {
            lemma_cut_back_of_empty(value@);
        }
        let end: usize = find_block_end(lines, i + 1, ind);
        let text = read_block(lines, i + 1, end, value);
        return (Some(Field { key, value: text }), end);
    }
    if value.len() == 0 {
        let (items, end) = read_list(lines, i + 1, ind);
        if items.len() > 0 {
            return (Some(Field { key, value: join(&items, ", ") }), end);
        }
        let plain = text_of(value);
        return (Some(Field { key, value: plain }), i + 1);
    }
    (Some(Field { key, value: text_of(value) }), i + 1)
}

proof fn lemma_cut_back_of_empty(s: Seq<char>)
    ensures
        s.len() == 0 ==> text::cut_back(s, chomping()).len() == 0,
{
}

// ── The file ────────────────────────────────────────────────────────────────

/// A text without a byte order mark at its start.
pub open spec fn without_mark(s: Seq<char>) -> Seq<char> {
    if s.len() > 0 && s[0] == '\u{feff}' {
        s.skip(1)
    } else {
        s
    }
}

/// The line of dashes from `from` on: where it starts, and where the text behind
/// it does.
pub open spec fn closing_from(s: Seq<char>, from: int) -> Option<(int, int)>
    decreases s.len() - from,
    via closing_decreases
{
    if from < 0 || from >= s.len() {
        None
    } else {
        let end = text::line_end(s, from);
        let next = if end < s.len() {
            end + 1
        } else {
            end
        };
        if text::trim_of(s.subrange(from, end)) == "---"@ {
            Some((from, next))
        } else {
            closing_from(s, next)
        }
    }
}

#[via_fn]
proof fn closing_decreases(s: Seq<char>, from: int) {
    if 0 <= from < s.len() {
        text::lemma_line_end(s, from);
    }
}

/// What a file holds.
pub enum FileView {
    /// Fields and a body.
    Parts(Seq<FieldView>, Seq<char>),
    /// A header that does not end.
    Unclosed,
}

/// Whether a text starts with a line of dashes.
pub open spec fn opens_header(s: Seq<char>) -> bool {
    &&& text::starts(s, "---"@)
    &&& is_blank(s.skip(3).take(text::line_end(s.skip(3), 0)))
}

/// What stands behind the first line.
pub open spec fn behind_first_line(s: Seq<char>) -> Seq<char> {
    let end = text::line_end(s, 0);
    if end < s.len() {
        s.skip(end + 1)
    } else {
        Seq::empty()
    }
}

/// What a skill file holds.
pub open spec fn file_of(content: Seq<char>) -> FileView {
    let s = without_mark(content);
    if !opens_header(s) {
        FileView::Parts(Seq::empty(), s)
    } else {
        let rest = behind_first_line(s.skip(3));
        match closing_from(rest, 0) {
            Some(p) => FileView::Parts(
                fields_from(text::lines_of(rest.take(p.0)), 0),
                text::trim_of(rest.skip(p.1)),
            ),
            None => FileView::Unclosed,
        }
    }
}

fn end_of_line(s: &[char], from: usize) -> (r: usize)
    requires
        from <= s@.len(),
    ensures
        r == text::line_end(s@, from as int),
        from <= r <= s@.len(),
{
    let n: usize = s.len();
    let mut i: usize = from;
    while i < n && s[i] != '\n'
        invariant
            from <= i <= n == s@.len(),
            text::line_end(s@, from as int) == text::line_end(s@, i as int),
        decreases n - i,
    {
        i = i + 1;
    }
    i
}

fn find_closing(s: &[char]) -> (r: Option<(usize, usize)>)
    ensures
        match r {
            Some(p) => closing_from(s@, 0) == Some((p.0 as int, p.1 as int)) && p.0 <= p.1
                <= s@.len(),
            None => closing_from(s@, 0) is None,
        },
{
    let n: usize = s.len();
    let mut from: usize = 0;
    while from < n
        invariant
            from <= n == s@.len(),
            closing_from(s@, 0) == closing_from(s@, from as int),
        decreases n - from,
    {
        let end: usize = end_of_line(s, from);
        let next: usize = if end < n {
            end + 1
        } else {
            end
        };
        let line = text_of(trim(slice_subrange(s, from, end)));
        proof {
            text::lemma_line_end(s@, from as int);
        }
        if same(line.as_str(), "---") {
            return Some((from, next));
        }
        from = next;
    }
    None
}

/// Reads a skill file: the fields of its header in order, and its body. A file
/// without a header is all body; a header that does not end is an error.
pub fn parse_yaml_frontmatter(content: &str) -> (r: Result<(Vec<Field>, String), String>)
    ensures
        match r {
            Ok(p) => file_of(content@) == FileView::Parts(field_views(p.0@), p.1@),
            Err(e) => file_of(content@) is Unclosed && e@ == "Unclosed frontmatter"@,
        },
{
    let all = chars_of(content);
    let total: usize = all.len();
    let from: usize = if total > 0 && all[0] == '\u{feff}' {
        1
    } else {
        0
    };
    let s = slice_subrange(all.as_slice(), from, total);
    proof {
        assert(all@.subrange(1, total as int) =~= all@.skip(1));
        assert(all@.subrange(0, total as int) =~= all@);
        assert(s@ == without_mark(content@));
        reveal_strlit("---");
    }
    let dashes = chars_of("---");
    let n: usize = s.len();
    let empty: Vec<Field> = Vec::new();
    assert(field_views(empty@) =~= Seq::empty());
    if n < 3 || !stands_at(s, dashes.as_slice(), 0) {
        return Ok((empty, text_of(s)));
    }
    let after = slice_subrange(s, 3, n);
    assert(after@ =~= s@.skip(3));
    let m: usize = after.len();
    let end: usize = end_of_line(after, 0);
    let first = slice_subrange(after, 0, end);
    assert(first@ =~= after@.take(end as int));
    if !blank(first) {
        return Ok((empty, text_of(s)));
    }
    let begin: usize = if end < m {
        end + 1
    } else {
        m
    };
    let rest = slice_subrange(after, begin, m);
    assert(rest@ =~= behind_first_line(s@.skip(3)));
    let (fm_end, body_start) = match find_closing(rest) {
        Some(p) => p,
        None => return Err("Unclosed frontmatter".to_string()),
    };
    let k: usize = rest.len();
    let head = slice_subrange(rest, 0, fm_end);
    let tail = slice_subrange(rest, body_start, k);
    assert(head@ =~= rest@.take(fm_end as int));
    assert(tail@ =~= rest@.skip(body_start as int));
    let body = text_of(trim(tail));
    let ls = lines(head);
    let ghost v = text::char_views(ls@);
    let count: usize = ls.len();
    let mut fields: Vec<Field> = Vec::new();
    let mut i: usize = 0;
    assert(field_views(fields@) + fields_from(v, 0) =~= fields_from(v, 0));
    while i < count
        invariant
            i <= count == ls@.len(),
            v == text::char_views(ls@),
            field_views(fields@) + fields_from(v, i as int) == fields_from(v, 0),
        decreases count - i,
    {
        let (field, next) = read_field(&ls, i);
        let ghost before = field_views(fields@);
        proof {
            lemma_field_end(v, i as int);
        }
        if let Some(f) = field {
            proof {
                assert(field_views(fields@.push(f)) =~= before.push(f@));
                assert(before.push(f@) + fields_from(v, next as int) =~= before + fields_from(
                    v,
                    i as int,
                ));
            }
            fields.push(f);
        }
        i = next;
    }
    assert(fields_from(v, count as int) =~= Seq::empty());
    assert(field_views(fields@) + Seq::empty() =~= field_views(fields@));
    Ok((fields, body))
}

// ── Reading fields ──────────────────────────────────────────────────────────

/// The value of a key among the first `n` fields: the last one counts.
pub open spec fn value_at(fields: Seq<FieldView>, key: Seq<char>, n: int) -> Option<Seq<char>>
    decreases n,
{
    if n <= 0 {
        None
    } else if fields[n - 1].key == key {
        Some(fields[n - 1].value)
    } else {
        value_at(fields, key, n - 1)
    }
}

/// What the value of a key stands for; none where there is no such key, or
/// nothing behind it.
pub open spec fn field_text(fields: Seq<FieldView>, key: Seq<char>) -> Option<Seq<char>> {
    match value_at(fields, key, fields.len() as int) {
        Some(v) => if unquoted(v).len() > 0 {
            Some(unquoted(v))
        } else {
            None
        },
        None => None,
    }
}

/// What the value of a key stands for.
pub fn get_field(fields: &Vec<Field>, key: &str) -> (r: Option<String>)
    ensures
        text::opt_text(r) == field_text(field_views(fields@), key@),
{
    let ghost s = field_views(fields@);
    let mut n: usize = fields.len();
    while n > 0
        invariant
            n <= fields@.len(),
            s == field_views(fields@),
            value_at(s, key@, s.len() as int) == value_at(s, key@, n as int),
        decreases n,
    {
        assert(fields@[n - 1]@ == s[n - 1]);
        if same(fields[n - 1].key.as_str(), key) {
            let v = unquote_yaml(fields[n - 1].value.as_str());
            if v.as_str().is_empty() {
                return None;
            }
            return Some(v);
        }
        n = n - 1;
    }
    None
}

/// The name in the header of a skill file.
pub open spec fn name_in(content: Seq<char>) -> Option<Seq<char>> {
    match file_of(content) {
        FileView::Parts(fields, body) => field_text(fields, "name"@),
        FileView::Unclosed => None,
    }
}

/// The name in the header of a skill file.
pub fn parse_frontmatter_name(content: &str) -> (r: Option<String>)
    ensures
        text::opt_text(r) == name_in(content@),
{
    match parse_yaml_frontmatter(content) {
        Ok((fields, _)) => get_field(&fields, "name"),
        Err(_) => None,
    }
}

// ── Laws ────────────────────────────────────────────────────────────────────

/// Whether a text can stand as a key.
pub open spec fn is_key(s: Seq<char>) -> bool {
    &&& s.len() > 0
    &&& starts_key(s[0])
    &&& forall|i: int| 0 <= i < s.len() ==> is_key_char(#[trigger] s[i])
}

#[verifier::rlimit(40)]
proof fn lemma_key_line(key: Seq<char>, rest: Seq<char>)
    requires
        is_key(key),
        rest.len() > 0 ==> !text::is_ws(rest.last()),
    ensures
        ({
            let line = key + seq![':'] + rest;
            &&& text::trim_of(line) == line
            &&& indent_of(line) == 0
            &&& is_pair(line)
            &&& key_in(line) == key
            &&& value_in(line) == text::trim_of(rest)
        }),
{
    let none = Seq::<char>::empty();
    let line = key + seq![':'] + rest;
    let n = key.len() as int;
    reveal_strlit(":");
    assert(starts_key(key[0]));
    assert(line[0] == key[0]);
    assert(line.last() == (if rest.len() > 0 {
        rest.last()
    } else {
        ':'
    }));
    text::law_trim_takes_whitespace(none, line, none);
    assert(none + line + none =~= line);
    text::lemma_first_at(line, ":"@);
    let a = text::first_at(line, ":"@);
    assert(line.subrange(n, n + 1) =~= ":"@);
    assert(text::at(line, ":"@, n));
    if a < 0 {
        assert(text::has_part(line, ":"@));
    } else if a < n {
        assert(line.subrange(a, a + 1)[0] == ':');
        assert(line[a] == key[a]);
        assert(is_key_char(key[a]));
    }
    assert(a == n);
    assert forall|i: int| 0 <= i < n implies is_key_char(#[trigger] line[i]) by {
        assert(line[i] == key[i]);
    }
    assert(line.take(n) =~= key);
    assert(is_key_char(key[n - 1]));
    text::law_trim_takes_whitespace(none, key, none);
    assert(none + key + none =~= key);
    assert(line.skip(n + 1) =~= rest);
}

/// A line with a key and a value is read as that key and that value, whole.
pub proof fn law_plain_field_is_read(key: Seq<char>, value: Seq<char>)
    requires
        is_key(key),
        value.len() > 0,
        text::is_tight(value),
        block_sign(value) != "|"@,
        block_sign(value) != ">"@,
    ensures
        fields_from(seq![key + ": "@ + value], 0) == seq![FieldView { key, value }],
{
    let none = Seq::<char>::empty();
    let line = key + ": "@ + value;
    let lines = seq![line];
    reveal_strlit(": ");
    let rest = seq![' '] + value;
    assert(line =~= key + seq![':'] + rest);
    assert(rest.last() == value.last());
    lemma_key_line(key, rest);
    assert(text::is_blank(seq![' ']));
    text::law_trim_takes_whitespace(seq![' '], value, none);
    assert(seq![' '] + value + none =~= rest);
    assert(field_at(lines, 0) == (Some(FieldView { key, value }), 1int));
    assert(fields_from(lines, 1) =~= Seq::<FieldView>::empty());
    assert(fields_from(lines, 0) =~= seq![FieldView { key, value }]);
}

/// Whether a text can stand as an item of a list: it says something, and has neither
/// whitespace nor quotation marks around it.
pub open spec fn is_item(s: Seq<char>) -> bool {
    &&& s.len() > 0
    &&& text::is_tight(s)
    &&& s[0] != '"' && s[0] != '\''
    &&& s.last() != '"' && s.last() != '\''
}

proof fn lemma_item_line(x: Seq<char>)
    requires
        is_item(x),
    ensures
        ({
            let line = "  - "@ + x;
            let t = text::trim_of(line);
            &&& t.len() > 0
            &&& text::starts(t, "- "@)
            &&& bare(text::trim_of(t.skip(2))) == x
        }),
{
    let none = Seq::<char>::empty();
    let line = "  - "@ + x;
    let t = "- "@ + x;
    reveal_strlit("  - ");
    reveal_strlit("- ");
    let two = seq![' ', ' '];
    assert(text::is_blank(two));
    assert(t[0] == '-');
    assert(t.last() == x.last());
    text::law_trim_takes_whitespace(two, t, none);
    assert(two + t + none =~= line);
    assert(t.subrange(0, 2) =~= "- "@);
    assert(t.skip(2) =~= x);
    text::law_trim_takes_whitespace(none, x, none);
    assert(none + x + none =~= x);
    assert(!double_quote()(x[0]) && !double_quote()(x.last()));
    assert(!single_quote()(x[0]) && !single_quote()(x.last()));
    assert(text::stripped(x, double_quote()) == x);
    assert(text::stripped(x, single_quote()) == x);
}

proof fn lemma_list_from(lines: Seq<Seq<char>>, j: int, acc: Seq<Seq<char>>, items: Seq<Seq<char>>)
    requires
        1 <= j <= lines.len(),
        lines.len() == items.len() + 1,
        forall|i: int| 0 <= i < items.len() ==> is_item(#[trigger] items[i]),
        forall|i: int| 0 <= i < items.len() ==> lines[i + 1] == "  - "@ + #[trigger] items[i],
        acc == items.take(j - 1),
    ensures
        list_from(lines, j, 0, acc) == (Items { items, end: lines.len() as int }),
    decreases lines.len() - j,
{
    if j < lines.len() {
        let x = items[j - 1];
        assert(is_item(x));
        assert(lines[j] == "  - "@ + x);
        lemma_item_line(x);
        assert(acc.push(x) =~= items.take(j));
        lemma_list_from(lines, j + 1, items.take(j), items);
    } else {
        assert(acc =~= items);
    }
}

/// Items that are listed below a key, one on each line, are its value, in order and with
/// commas between them.
#[verifier::rlimit(40)]
pub proof fn law_listed_items_are_read(key: Seq<char>, items: Seq<Seq<char>>)
    requires
        is_key(key),
        items.len() > 0,
        forall|i: int| 0 <= i < items.len() ==> is_item(#[trigger] items[i]),
    ensures
        fields_from(
            seq![key.push(':')] + items.map_values(|x: Seq<char>| "  - "@ + x),
            0,
        ) == seq![FieldView { key, value: text::joined(items, ", "@) }],
{
    let none = Seq::<char>::empty();
    let lines = seq![key.push(':')] + items.map_values(|x: Seq<char>| "  - "@ + x);
    assert(key.push(':') =~= key + seq![':'] + none);
    lemma_key_line(key, none);
    assert(text::trim_of(none) =~= none);
    assert(block_sign(none) =~= none);
    reveal_strlit("|");
    reveal_strlit(">");
    assert forall|i: int| 0 <= i < items.len() implies lines[i + 1] == "  - "@ + #[trigger] items[i] by {}
    assert(items.take(0) =~= Seq::<Seq<char>>::empty());
    lemma_list_from(lines, 1, Seq::empty(), items);
    assert(lines[0] == key.push(':'));
    assert(fields_from(lines, lines.len() as int) =~= Seq::<FieldView>::empty());
    assert(fields_from(lines, 0) =~= seq![
        FieldView { key, value: text::joined(items, ", "@) },
    ]);
}

/// Of two fields with one key the later counts.
pub proof fn law_last_field_counts(fields: Seq<FieldView>, key: Seq<char>, value: Seq<char>)
    requires
        unquoted(value).len() > 0,
    ensures
        field_text(fields.push(FieldView { key, value }), key) == Some(unquoted(value)),
        forall|other: Seq<char>|
            other != key ==> #[trigger] field_text(fields.push(FieldView { key, value }), other)
                == field_text(fields, other),
{
    let more = fields.push(FieldView { key, value });
    assert forall|other: Seq<char>| other != key implies #[trigger] field_text(more, other)
        == field_text(fields, other) by {
        lemma_value_front(fields, more, other, fields.len() as int);
    }
}

proof fn lemma_value_front(a: Seq<FieldView>, b: Seq<FieldView>, key: Seq<char>, n: int)
    requires
        0 <= n <= a.len() <= b.len(),
        forall|i: int| 0 <= i < a.len() ==> #[trigger] b[i] == a[i],
    ensures
        value_at(b, key, n) == value_at(a, key, n),
    decreases n,
{
    if n > 0 {
        lemma_value_front(a, b, key, n - 1);
        assert(b[n - 1] == a[n - 1]);
    }
}

/// A file that starts with no header is all body, as it stands.
pub proof fn law_file_without_header_is_body(content: Seq<char>)
    requires
        content.len() > 0,
        content[0] != '-',
        content[0] != '\u{feff}',
    ensures
        file_of(content) == FileView::Parts(Seq::empty(), content),
        file_of(seq!['\u{feff}'] + content) == FileView::Parts(Seq::empty(), content),
{
    reveal_strlit("---");
    let marked = seq!['\u{feff}'] + content;
    assert(marked.skip(1) =~= content);
    if text::starts(content, "---"@) {
        assert(content.subrange(0, 3)[0] == content[0]);
    }
}

proof fn lemma_block_to_the_end(lines: Seq<Seq<char>>, j: int)
    requires
        1 <= j <= lines.len(),
        forall|i: int| 1 <= i < lines.len() ==> indent_of(#[trigger] lines[i]) > 0,
    ensures
        block_end(lines, j, 0) == lines.len(),
    decreases lines.len() - j,
{
    if j < lines.len() {
        lemma_block_to_the_end(lines, j + 1);
    }
}

proof fn lemma_indented(l: Seq<char>)
    requires
        l.len() > 0,
        text::is_tight(l),
    ensures
        indent_of("  "@ + l) == 2,
        !is_blank("  "@ + l),
        outdented("  "@ + l, 2) == l,
        !is_blank(l),
{
    let none = Seq::<char>::empty();
    let line = "  "@ + l;
    reveal_strlit("  ");
    let one = seq![' '] + l;
    assert(line.skip(1) =~= one);
    assert(one.skip(1) =~= l);
    reveal_with_fuel(indent_of, 4);
    reveal_with_fuel(outdented, 4);
    assert(text::width(' ') == 1);
    text::law_blank_is_trimmed_away(line);
    assert(line[2] == l[0]);
    text::law_blank_is_trimmed_away(l);
}

/// Lines that stand indented below a key with a bar are its value, line by line and without
/// the indent.
#[verifier::rlimit(40)]
pub proof fn law_block_is_read(key: Seq<char>, ls: Seq<Seq<char>>)
    requires
        is_key(key),
        ls.len() > 0,
        forall|i: int| 0 <= i < ls.len() ==> (#[trigger] ls[i]).len() > 0 && text::is_tight(ls[i]),
    ensures
        fields_from(seq![key + ": |"@] + ls.map_values(|l: Seq<char>| "  "@ + l), 0) == seq![
            FieldView { key, value: text::joined(ls, "\n"@).push('\n') },
        ],
{
    let none = Seq::<char>::empty();
    let lines = seq![key + ": |"@] + ls.map_values(|l: Seq<char>| "  "@ + l);
    reveal_strlit(": |");
    reveal_strlit("|");
    reveal_strlit(">");
    let bar = seq!['|'];
    let rest = seq![' '] + bar;
    assert(key + ": |"@ =~= key + seq![':'] + rest);
    lemma_key_line(key, rest);
    assert(text::is_blank(seq![' ']));
    text::law_trim_takes_whitespace(seq![' '], bar, none);
    assert(seq![' '] + bar + none =~= rest);
    assert("|"@ =~= bar);
    assert(!chomping()('|'));
    assert(block_sign(bar) == bar);
    assert(bar != ">"@) by {
        assert(bar[0] == '|');
        assert(">"@[0] == '>');
    }
    assert forall|i: int| 1 <= i < lines.len() implies indent_of(#[trigger] lines[i]) == 2
        && !is_blank(lines[i]) && outdented(lines[i], 2) == ls[i - 1] && !is_blank(ls[i - 1]) by {
        assert(ls[i - 1].len() > 0 && text::is_tight(ls[i - 1]));
        lemma_indented(ls[i - 1]);
        assert(lines[i] == "  "@ + ls[i - 1]);
    }
    lemma_block_to_the_end(lines, 1);
    let end = lines.len() as int;
    assert(indent_of(lines[1]) == 2);
    assert(block_indent(lines, 1, end) == 2);
    let got = block_lines(lines, 1, end);
    assert forall|k: int| 0 <= k < ls.len() implies #[trigger] got[k] == ls[k] by {
        assert(lines[1 + k] == "  "@ + ls[k]);
        assert(indent_of(lines[1 + k]) == 2);
    }
    assert(got =~= ls);
    assert(!is_blank(ls[ls.len() - 1])) by {
        assert(outdented(lines[ls.len() as int], 2) == ls[ls.len() - 1]);
    }
    assert(without_blank_tail(ls) == ls);
    assert(lines[0] == key + ": |"@);
    assert(field_at(lines, 0) == (
        Some(FieldView { key, value: text::joined(ls, "\n"@).push('\n') }),
        end,
    ));
    assert(fields_from(lines, end) =~= Seq::<FieldView>::empty());
    assert(fields_from(lines, 0) =~= seq![
        FieldView { key, value: text::joined(ls, "\n"@).push('\n') },
    ]);
}

/// A value in single quotation marks is what stands between them, and one without quotation
/// marks is itself.
pub proof fn law_other_values_read_back(s: Seq<char>)
    ensures
        unquoted(seq!['\''] + s + seq!['\'']) == s,
        s.len() > 0 && text::is_tight(s) && s[0] != '"' && s[0] != '\'' ==> unquoted(s) == s,
{
    let none = Seq::<char>::empty();
    let q = seq!['\''] + s + seq!['\''];
    assert(q[0] == '\'' && q.last() == '\'');
    text::law_trim_takes_whitespace(none, q, none);
    assert(none + q + none =~= q);
    assert(q.subrange(1, q.len() - 1) =~= s);
    if s.len() > 0 && text::is_tight(s) {
        text::law_trim_takes_whitespace(none, s, none);
        assert(none + s + none =~= s);
    }
}

} // verus!
