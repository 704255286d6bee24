//! Text as sequences of characters: the string operations that the rest of the
//! library is stated in, each with the value it computes.

use vstd::prelude::*;
use vstd::slice::slice_subrange;
use vstd::string::*;

verus! {

/// `String::push` appends one character.
pub assume_specification[ String::push ](s: &mut String, c: char)
    ensures
        final(s)@ == old(s)@.push(c),
;

/// `==` on `str` compares the texts.
pub assume_specification[ <str as PartialEq>::eq ](a: &str, b: &str) -> (r: bool)
    ensures
        r == (a@ == b@),
;

// ── Between strings and character vectors ───────────────────────────────────

/// The characters of a string.
pub fn chars_of(s: &str) -> (v: Vec<char>)
    ensures
        v@ == s@,
{
    let mut v: Vec<char> = Vec::new();
    for c in it: s.chars()
        invariant
            v@ == it.seq().take(it.index() as int),
    {
        v.push(c);
    }
    v
}

/// The string made of the given characters.
pub fn text_of(chars: &[char]) -> (s: String)
    ensures
        s@ == chars@,
{
    let mut s: String = String::new();
    let n: usize = chars.len();
    for i in 0..n
        invariant
            n == chars@.len(),
            s@ == chars@.take(i as int),
    {
        s.push(chars[i]);
        assert(chars@.take(i + 1) =~= chars@.take(i as int).push(chars@[i as int]));
    }
    assert(chars@.take(n as int) =~= chars@);
    s
}

// ── Whitespace ──────────────────────────────────────────────────────────────

/// The Unicode `White_Space` characters.
pub open spec fn is_ws(c: char) -> bool {
    let u = c as u32;
    ||| 0x9 <= u <= 0xD
    ||| u == 0x20
    ||| u == 0x85
    ||| u == 0xA0
    ||| u == 0x1680
    ||| 0x2000 <= u <= 0x200A
    ||| u == 0x2028
    ||| u == 0x2029
    ||| u == 0x202F
    ||| u == 0x205F
    ||| u == 0x3000
}

/// Whether `c` is Unicode whitespace.
pub fn is_whitespace(c: char) -> (b: bool)
    ensures
        b == is_ws(c),
{
    let u: u32 = c as u32;
    (0x9 <= u && u <= 0xD) || u == 0x20 || u == 0x85 || u == 0xA0 || u == 0x1680 || (0x2000 <= u
        && u <= 0x200A) || u == 0x2028 || u == 0x2029 || u == 0x202F || u == 0x205F || u == 0x3000
}

/// `s` without its leading whitespace.
pub open spec fn trim_start_of(s: Seq<char>) -> Seq<char>
    decreases s.len(),
{
    if s.len() > 0 && is_ws(s[0]) {
        trim_start_of(s.drop_first())
    } else {
        s
    }
}

/// `s` without its trailing whitespace.
pub open spec fn trim_end_of(s: Seq<char>) -> Seq<char>
    decreases s.len(),
{
    if s.len() > 0 && is_ws(s.last()) {
        trim_end_of(s.drop_last())
    } else {
        s
    }
}

/// `s` without its leading and trailing whitespace.
pub open spec fn trim_of(s: Seq<char>) -> Seq<char> {
    trim_end_of(trim_start_of(s))
}

/// Drops the leading whitespace.
pub fn trim_start<'a>(s: &'a [char]) -> (r: &'a [char])
    ensures
        r@ == trim_start_of(s@),
{
    let n: usize = s.len();
    let mut i: usize = 0;
    assert(s@.skip(0) =~= s@);
    while i < n && is_whitespace(s[i])
        invariant
            i <= n == s@.len(),
            trim_start_of(s@) == trim_start_of(s@.skip(i as int)),
        decreases n - i,
    {
        assert(s@.skip(i as int).drop_first() =~= s@.skip(i + 1));
        i = i + 1;
    }
    assert(s@.subrange(i as int, n as int) =~= s@.skip(i as int));
    slice_subrange(s, i, n)
}

/// Drops the trailing whitespace.
pub fn trim_end<'a>(s: &'a [char]) -> (r: &'a [char])
    ensures
        r@ == trim_end_of(s@),
{
    let mut n: usize = s.len();
    assert(s@.take(n as int) =~= s@);
    while n > 0 && is_whitespace(s[n - 1])
        invariant
            n <= s@.len(),
            trim_end_of(s@) == trim_end_of(s@.take(n as int)),
        decreases n,
    {
        assert(s@.take(n as int).drop_last() =~= s@.take(n - 1));
        n = n - 1;
    }
    assert(s@.subrange(0, n as int) =~= s@.take(n as int));
    slice_subrange(s, 0, n)
}

/// Drops the leading and the trailing whitespace.
pub fn trim<'a>(s: &'a [char]) -> (r: &'a [char])
    ensures
        r@ == trim_of(s@),
{
    trim_end(trim_start(s))
}

/// The trimmed text of a string.
pub fn trimmed(s: &str) -> (r: String)
    ensures
        r@ == trim_of(s@),
{
    let v = chars_of(s);
    text_of(trim(v.as_slice()))
}

// ── Numbers ─────────────────────────────────────────────────────────────────

/// The decimal digit `d`.
pub open spec fn digit(d: nat) -> char {
    (d + 48) as u32 as char
}

/// The decimal notation of `n`.
pub open spec fn dec(n: nat) -> Seq<char>
    decreases n,
{
    if n < 10 {
        seq![digit(n)]
    } else {
        dec(n / 10).push(digit(n % 10))
    }
}

fn digit_char(d: u64) -> (c: char)
    requires
        d < 10,
    ensures
        c == digit(d as nat),
{
    match d {
        0 => '0',
        1 => '1',
        2 => '2',
        3 => '3',
        4 => '4',
        5 => '5',
        6 => '6',
        7 => '7',
        8 => '8',
        _ => '9',
    }
}

/// Writes `n` in decimal.
pub fn decimal(n: u64) -> (s: String)
    ensures
        s@ == dec(n as nat),
    decreases n,
{
    if n < 10 {
        let mut s: String = String::new();
        s.push(digit_char(n));
        assert(s@ =~= seq![digit(n as nat)]);
        s
    } else {
        let mut s = decimal(n / 10);
        s.push(digit_char(n % 10));
        s
    }
}

// ── Comparing ───────────────────────────────────────────────────────────────

/// Whether two strings hold the same text.
pub fn same(a: &str, b: &str) -> (r: bool)
    ensures
        r == (a@ == b@),
{
    *a == *b
}

/// Whether two optional strings hold the same text, or are both absent.
pub fn same_option(a: &Option<String>, b: &Option<String>) -> (r: bool)
    ensures
        r == (opt_text(*a) == opt_text(*b)),
{
    match (a, b) {
        (Some(x), Some(y)) => same(x.as_str(), y.as_str()),
        (None, None) => true,
        _ => false,
    }
}

/// The text of an optional string.
pub open spec fn opt_text(o: Option<String>) -> Option<Seq<char>> {
    match o {
        Some(s) => Some(s@),
        None => None,
    }
}

/// A copy of an optional string.
pub fn copy_option(o: &Option<String>) -> (r: Option<String>)
    ensures
        opt_text(r) == opt_text(*o),
{
    match o {
        Some(s) => Some(s.clone()),
        None => None,
    }
}

// ── Sequences of texts ──────────────────────────────────────────────────────

/// The texts of a sequence of strings.
pub open spec fn texts(v: Seq<String>) -> Seq<Seq<char>> {
    v.map_values(|s: String| s@)
}

/// Adding one string adds one text.
pub broadcast proof fn lemma_texts_push(v: Seq<String>, s: String)
    ensures
        #[trigger] texts(v.push(s)) == texts(v).push(s@),
{
    assert(texts(v.push(s)) =~= texts(v).push(s@));
}

/// What a filter keeps of one more element.
pub proof fn lemma_filter_take<A>(s: Seq<A>, i: int, p: spec_fn(A) -> bool)
    requires
        0 <= i < s.len(),
    ensures
        s.take(i + 1).filter(p) == (if p(s[i]) {
            s.take(i).filter(p).push(s[i])
        } else {
            s.take(i).filter(p)
        }),
{
    assert(s.take(i + 1) =~= s.take(i).push(s[i]));
    s.take(i).lemma_filter_push(s[i], p);
}

// ── Prefixes ────────────────────────────────────────────────────────────────

/// The first `n` characters of `s`, or all of it where it is shorter.
pub open spec fn first_chars(s: Seq<char>, n: nat) -> Seq<char> {
    if s.len() <= n {
        s
    } else {
        s.take(n as int)
    }
}

/// The first `n` characters of a string.
pub fn take_chars(s: &str, n: usize) -> (r: String)
    ensures
        r@ == first_chars(s@, n as nat),
{
    let len: usize = s.unicode_len();
    if len <= n {
        s.to_string()
    } else {
        let part = s.substring_char(0, n);
        assert(s@.subrange(0, n as int) =~= s@.take(n as int));
        part.to_string()
    }
}

/// Joins three texts.
pub fn cat3(a: &str, b: &str, c: &str) -> (r: String)
    ensures
        r@ == a@ + b@ + c@,
{
    a.to_string().concat(b).concat(c)
}

// ── Finding ─────────────────────────────────────────────────────────────────

/// Whether `p` stands in `s` at position `i`.
pub open spec fn at(s: Seq<char>, p: Seq<char>, i: int) -> bool {
    0 <= i && i + p.len() <= s.len() && s.subrange(i, i + p.len()) == p
}

/// Whether `p` stands somewhere in `s`.
pub open spec fn has_part(s: Seq<char>, p: Seq<char>) -> bool {
    exists|i: int| #[trigger] at(s, p, i)
}

/// Whether `s` starts with `p`.
pub open spec fn starts(s: Seq<char>, p: Seq<char>) -> bool {
    at(s, p, 0)
}

/// Whether `s` ends with `p`.
pub open spec fn ends(s: Seq<char>, p: Seq<char>) -> bool {
    at(s, p, s.len() - p.len())
}

/// Whether `p` stands in `s` at position `i`.
pub fn stands_at(s: &[char], p: &[char], i: usize) -> (b: bool)
    requires
        i <= s@.len(),
    ensures
        b == at(s@, p@, i as int),
{
    let n: usize = p.len();
    let total: usize = s.len();
    if n > total - i {
        return false;
    }
    for k in 0..n
        invariant
            n == p@.len(),
            i + n <= total == s@.len(),
            forall|q: int| 0 <= q < k ==> s@[i + q] == p@[q],
    {
        if s[i + k] != p[k] {
            assert(s@.subrange(i as int, i + n)[k as int] != p@[k as int]);
            return false;
        }
    }
    assert(s@.subrange(i as int, i + n) =~= p@);
    true
}

/// Whether `p` stands somewhere in `s`.
pub fn contains(s: &[char], p: &[char]) -> (b: bool)
    ensures
        b == has_part(s@, p@),
{
    let n: usize = s.len();
    let mut i: usize = 0;
    while i < n
        invariant
            i <= n == s@.len(),
            forall|k: int| 0 <= k < i ==> !(#[trigger] at(s@, p@, k)),
        decreases n - i,
    {
        if stands_at(s, p, i) {
            assert(at(s@, p@, i as int));
            return true;
        }
        i = i + 1;
    }
    if p.len() == 0 {
        assert(s@.subrange(n as int, n as int) =~= p@);
        assert(at(s@, p@, n as int));
        return true;
    }
    assert forall|k: int| !(#[trigger] at(s@, p@, k)) by {
    }
    false
}

/// Whether the string `p` stands somewhere in the string `s`.
pub fn str_contains(s: &str, p: &str) -> (b: bool)
    ensures
        b == has_part(s@, p@),
{
    let a = chars_of(s);
    let b = chars_of(p);
    contains(a.as_slice(), b.as_slice())
}

/// Whether the string `s` starts with the string `p`.
pub fn str_starts_with(s: &str, p: &str) -> (b: bool)
    ensures
        b == starts(s@, p@),
{
    let a = chars_of(s);
    let b = chars_of(p);
    stands_at(a.as_slice(), b.as_slice(), 0)
}

/// Whether the string `s` ends with the string `p`.
pub fn str_ends_with(s: &str, p: &str) -> (b: bool)
    ensures
        b == ends(s@, p@),
{
    let a = chars_of(s);
    let b = chars_of(p);
    if b.len() > a.len() {
        return false;
    }
    stands_at(a.as_slice(), b.as_slice(), a.len() - b.len())
}

// ── Letter case ─────────────────────────────────────────────────────────────

/// A character with `A` to `Z` in lower case.
pub open spec fn ascii_lower(c: char) -> char {
    if 'A' <= c <= 'Z' {
        (c as u32 + 32) as u32 as char
    } else {
        c
    }
}

/// A text with `A` to `Z` in lower case.
pub open spec fn ascii_lowered(s: Seq<char>) -> Seq<char> {
    s.map_values(|c: char| ascii_lower(c))
}

/// A text in lower case, as Unicode has it.
pub uninterp spec fn unicode_lowered(s: Seq<char>) -> Seq<char>;

/// A string in lower case, by `str::to_lowercase`.
///
/// Its result is a function of the text; on a text of ASCII characters it is
/// the text with `A` to `Z` in lower case.
#[verifier::external_body]
pub(crate) fn lowercase(s: &str) -> (r: String)
    ensures
        r@ == unicode_lowered(s@),
        vstd::utf8::is_ascii_chars(s@) ==> r@ == ascii_lowered(s@),
{
    s.to_lowercase()
}

/// A text in lower case: among ASCII characters, `A` to `Z` become `a` to `z`.
pub open spec fn lowered(s: Seq<char>) -> Seq<char> {
    if vstd::utf8::is_ascii_chars(s) {
        ascii_lowered(s)
    } else {
        unicode_lowered(s)
    }
}

fn lower_char(c: char) -> (r: char)
    ensures
        r == ascii_lower(c),
{
    match c {
        'A' => 'a',
        'B' => 'b',
        'C' => 'c',
        'D' => 'd',
        'E' => 'e',
        'F' => 'f',
        'G' => 'g',
        'H' => 'h',
        'I' => 'i',
        'J' => 'j',
        'K' => 'k',
        'L' => 'l',
        'M' => 'm',
        'N' => 'n',
        'O' => 'o',
        'P' => 'p',
        'Q' => 'q',
        'R' => 'r',
        'S' => 's',
        'T' => 't',
        'U' => 'u',
        'V' => 'v',
        'W' => 'w',
        'X' => 'x',
        'Y' => 'y',
        'Z' => 'z',
        _ => c,
    }
}

/// A string with `A` to `Z` in lower case.
pub fn ascii_lowercase(s: &str) -> (r: String)
    ensures
        r@ == ascii_lowered(s@),
{
    let v = chars_of(s);
    let n: usize = v.len();
    let mut r: Vec<char> = Vec::new();
    for i in 0..n
        invariant
            n == v@.len(),
            r@ == ascii_lowered(v@).take(i as int),
    {
        assert(ascii_lowered(v@).take(i + 1) =~= ascii_lowered(v@).take(i as int).push(
            ascii_lowered(v@)[i as int],
        ));
        r.push(lower_char(v[i]));
    }
    assert(ascii_lowered(v@).take(n as int) =~= ascii_lowered(v@));
    text_of(r.as_slice())
}

/// Whether two strings are the same but for the case of ASCII letters.
pub fn same_ignoring_case(a: &str, b: &str) -> (r: bool)
    ensures
        r == (ascii_lowered(a@) == ascii_lowered(b@)),
{
    same(ascii_lowercase(a).as_str(), ascii_lowercase(b).as_str())
}

/// `s` without the copies of `p` that it starts with.
pub open spec fn without_leading(s: Seq<char>, p: Seq<char>) -> Seq<char>
    decreases s.len(),
{
    if p.len() > 0 && starts(s, p) {
        without_leading(s.skip(p.len() as int), p)
    } else {
        s
    }
}

/// Drops the copies of `p` that `s` starts with.
pub fn drop_leading<'a>(s: &'a [char], p: &[char]) -> (r: &'a [char])
    ensures
        r@ == without_leading(s@, p@),
{
    let n: usize = s.len();
    let m: usize = p.len();
    let mut i: usize = 0;
    assert(s@.skip(0) =~= s@);
    while m > 0 && i <= n && stands_at(s, p, i)
        invariant
            i <= n == s@.len(),
            m == p@.len(),
            without_leading(s@, p@) == without_leading(s@.skip(i as int), p@),
        decreases n - i,
    {
        proof {
            assert(s@.skip(i as int).subrange(0, m as int) =~= s@.subrange(i as int, i + m));
            assert(s@.skip(i as int).skip(m as int) =~= s@.skip(i + m));
        }
        i = i + m;
    }
    proof {
        if m > 0 && starts(s@.skip(i as int), p@) {
            assert(s@.skip(i as int).subrange(0, m as int) =~= s@.subrange(i as int, i + m));
        }
    }
    assert(s@.subrange(i as int, n as int) =~= s@.skip(i as int));
    slice_subrange(s, i, n)
}

/// Joins two texts.
pub fn cat2(a: &str, b: &str) -> (r: String)
    ensures
        r@ == a@ + b@,
{
    a.to_string().concat(b)
}

/// Texts with `sep` between them.
pub open spec fn joined(s: Seq<Seq<char>>, sep: Seq<char>) -> Seq<char>
    decreases s.len(),
{
    if s.len() == 0 {
        Seq::empty()
    } else if s.len() == 1 {
        s.last()
    } else {
        joined(s.drop_last(), sep) + sep + s.last()
    }
}

/// Joins strings with `sep` between them.
pub fn join(v: &Vec<String>, sep: &str) -> (r: String)
    ensures
        r@ == joined(texts(v@), sep@),
{
    let ghost s = texts(v@);
    let n: usize = v.len();
    let mut r = String::new();
    for i in 0..n
        invariant
            n == v@.len(),
            s == texts(v@),
            r@ == joined(s.take(i as int), sep@),
    {
        proof {
            assert(s.take(i + 1).drop_last() =~= s.take(i as int));
            assert(s.take(i + 1).last() == s[i as int]);
        }
        if i > 0 {
            r.append(sep);
        }
        r.append(v[i].as_str());
    }
    assert(s.take(n as int) =~= s);
    r
}

/// The first position from `k` on at which `p` stands in `s`, or -1.
pub open spec fn first_from(s: Seq<char>, p: Seq<char>, k: int) -> int
    decreases s.len() - k + 1,
{
    if k < 0 || k > s.len() {
        -1
    } else if at(s, p, k) {
        k
    } else {
        first_from(s, p, k + 1)
    }
}

/// The first position at which `p` stands in `s`, or -1.
pub open spec fn first_at(s: Seq<char>, p: Seq<char>) -> int {
    first_from(s, p, 0)
}

/// The first position at which `p` stands in `s`.
pub fn find(s: &[char], p: &[char]) -> (r: Option<usize>)
    ensures
        match r {
            Some(i) => first_at(s@, p@) == i && i + p@.len() <= s@.len(),
            None => first_at(s@, p@) == -1,
        },
{
    let n: usize = s.len();
    let mut i: usize = 0;
    while i < n
        invariant
            i <= n == s@.len(),
            first_at(s@, p@) == first_from(s@, p@, i as int),
        decreases n - i,
    {
        if stands_at(s, p, i) {
            return Some(i);
        }
        i = i + 1;
    }
    if stands_at(s, p, i) {
        return Some(i);
    }
    assert(first_from(s@, p@, n + 1) == -1);
    None
}

/// What `first_at` finds: a place where `p` stands and none before it, or no
/// place at all.
pub proof fn lemma_first_at(s: Seq<char>, p: Seq<char>)
    ensures
        first_at(s, p) >= 0 ==> at(s, p, first_at(s, p)),
        first_at(s, p) < 0 ==> !has_part(s, p),
        first_at(s, p) >= -1,
        forall|i: int| 0 <= i < first_at(s, p) ==> !(#[trigger] at(s, p, i)),
{
    lemma_first_from(s, p, 0);
}

/// What `first_from` finds.
pub proof fn lemma_first_from(s: Seq<char>, p: Seq<char>, k: int)
    requires
        0 <= k <= s.len() + 1,
    ensures
        first_from(s, p, k) >= 0 ==> at(s, p, first_from(s, p, k)) && first_from(s, p, k) >= k,
        first_from(s, p, k) >= -1,
        first_from(s, p, k) < 0 ==> forall|i: int| k <= i ==> !(#[trigger] at(s, p, i)),
        forall|i: int| k <= i < first_from(s, p, k) ==> !(#[trigger] at(s, p, i)),
    decreases s.len() - k + 1,
{
    if k <= s.len() && !at(s, p, k) {
        lemma_first_from(s, p, k + 1);
    }
}

// ── Skipping characters ─────────────────────────────────────────────────────

/// `s` without the characters at its start that `p` holds of.
pub open spec fn skipped(s: Seq<char>, p: spec_fn(char) -> bool) -> Seq<char>
    decreases s.len(),
{
    if s.len() > 0 && p(s[0]) {
        skipped(s.drop_first(), p)
    } else {
        s
    }
}

/// `s` without the characters at its end that `p` holds of.
pub open spec fn cut_back(s: Seq<char>, p: spec_fn(char) -> bool) -> Seq<char>
    decreases s.len(),
{
    if s.len() > 0 && p(s.last()) {
        cut_back(s.drop_last(), p)
    } else {
        s
    }
}

/// `s` without the characters at both ends that `p` holds of.
pub open spec fn stripped(s: Seq<char>, p: spec_fn(char) -> bool) -> Seq<char> {
    cut_back(skipped(s, p), p)
}

/// Drops the characters at the start that `f` accepts.
pub fn skip_while<'a, F: Fn(char) -> bool>(
    s: &'a [char],
    f: F,
    Ghost(p): Ghost<spec_fn(char) -> bool>,
) -> (r: &'a [char])
    requires
        forall|c: char| #[trigger] call_requires(f, (c,)),
        forall|c: char, b: bool| #[trigger] call_ensures(f, (c,), b) ==> b == p(c),
    ensures
        r@ == skipped(s@, p),
{
    let n: usize = s.len();
    let mut i: usize = 0;
    assert(s@.skip(0) =~= s@);
    while i < n && f(s[i])
        invariant
            i <= n == s@.len(),
            forall|c: char| #[trigger] call_requires(f, (c,)),
            forall|c: char, b: bool| #[trigger] call_ensures(f, (c,), b) ==> b == p(c),
            skipped(s@, p) == skipped(s@.skip(i as int), p),
        decreases n - i,
    {
        assert(s@.skip(i as int).drop_first() =~= s@.skip(i + 1));
        i = i + 1;
    }
    assert(s@.subrange(i as int, n as int) =~= s@.skip(i as int));
    slice_subrange(s, i, n)
}

/// Drops the characters at the end that `f` accepts.
pub fn skip_back<'a, F: Fn(char) -> bool>(
    s: &'a [char],
    f: F,
    Ghost(p): Ghost<spec_fn(char) -> bool>,
) -> (r: &'a [char])
    requires
        forall|c: char| #[trigger] call_requires(f, (c,)),
        forall|c: char, b: bool| #[trigger] call_ensures(f, (c,), b) ==> b == p(c),
    ensures
        r@ == cut_back(s@, p),
{
    let mut n: usize = s.len();
    assert(s@.take(n as int) =~= s@);
    while n > 0 && f(s[n - 1])
        invariant
            n <= s@.len(),
            forall|c: char| #[trigger] call_requires(f, (c,)),
            forall|c: char, b: bool| #[trigger] call_ensures(f, (c,), b) ==> b == p(c),
            cut_back(s@, p) == cut_back(s@.take(n as int), p),
        decreases n,
    {
        assert(s@.take(n as int).drop_last() =~= s@.take(n - 1));
        n = n - 1;
    }
    assert(s@.subrange(0, n as int) =~= s@.take(n as int));
    slice_subrange(s, 0, n)
}

// ── Kinds of characters ─────────────────────────────────────────────────────

/// The ASCII digits.
pub open spec fn is_digit(c: char) -> bool {
    '0' <= c <= '9'
}

/// Whether `c` is an ASCII digit.
pub fn is_ascii_digit(c: char) -> (b: bool)
    ensures
        b == is_digit(c),
{
    let u: u32 = c as u32;
    48 <= u && u <= 57
}

/// The ASCII letters and digits.
pub open spec fn is_ascii_word(c: char) -> bool {
    '0' <= c <= '9' || 'a' <= c <= 'z' || 'A' <= c <= 'Z'
}

/// The Unicode letters and digits.
pub uninterp spec fn is_word_char(c: char) -> bool;

/// `char::is_alphanumeric`: a function of the character; among the ASCII
/// characters it holds of the letters and digits.
pub assume_specification[ char::is_alphanumeric ](c: char) -> (b: bool)
    ensures
        b == is_word_char(c),
        (c as u32) < 128 ==> b == is_ascii_word(c),
;

/// The Unicode numerals.
pub uninterp spec fn is_numeral(c: char) -> bool;

/// `char::is_numeric`: a function of the character; among the ASCII characters
/// it holds of the digits.
pub assume_specification[ char::is_numeric ](c: char) -> (b: bool)
    ensures
        b == is_numeral(c),
        (c as u32) < 128 ==> b == is_digit(c),
;

/// Whether a character is a numeral: among the ASCII characters, the digits.
pub open spec fn is_number_char(c: char) -> bool {
    if (c as u32) < 128 {
        is_digit(c)
    } else {
        is_numeral(c)
    }
}

/// A text in upper case, as Unicode has it.
pub uninterp spec fn unicode_uppered(s: Seq<char>) -> Seq<char>;

/// A character with `a` to `z` in upper case.
pub open spec fn ascii_upper(c: char) -> char {
    if 'a' <= c <= 'z' {
        (c as u32 - 32) as u32 as char
    } else {
        c
    }
}

/// A string in upper case, by `str::to_uppercase`.
///
/// Its result is a function of the text; on a text of ASCII characters it is
/// the text with `a` to `z` in upper case.
#[verifier::external_body]
pub(crate) fn uppercase(s: &str) -> (r: String)
    ensures
        r@ == unicode_uppered(s@),
        vstd::utf8::is_ascii_chars(s@) ==> r@ == s@.map_values(|c: char| ascii_upper(c)),
{
    s.to_uppercase()
}

/// A text in upper case: among ASCII characters, `a` to `z` become `A` to `Z`.
pub open spec fn uppered(s: Seq<char>) -> Seq<char> {
    if vstd::utf8::is_ascii_chars(s) {
        s.map_values(|c: char| ascii_upper(c))
    } else {
        unicode_uppered(s)
    }
}

/// Whether a character is a letter or a digit: among the ASCII characters, `a` to `z`,
/// `A` to `Z` and `0` to `9`.
pub open spec fn is_alphanumeric(c: char) -> bool {
    if (c as u32) < 128 {
        is_ascii_word(c)
    } else {
        is_word_char(c)
    }
}

// ── Reading numbers ─────────────────────────────────────────────────────────

/// The number that some digits stand for.
pub open spec fn value_of(s: Seq<char>) -> nat
    decreases s.len(),
{
    if s.len() == 0 {
        0
    } else {
        value_of(s.drop_last()) * 10 + (s.last() as u32 - 48) as nat
    }
}

/// Whether a text is digits only.
pub open spec fn all_digits(s: Seq<char>) -> bool {
    forall|i: int| 0 <= i < s.len() ==> is_digit(#[trigger] s[i])
}

/// The unsigned number that a text stands for: digits, and a plus sign before
/// them if there is one.
pub open spec fn number_of(s: Seq<char>) -> Option<nat> {
    let t = if s.len() > 0 && s[0] == '+' {
        s.skip(1)
    } else {
        s
    };
    if t.len() > 0 && all_digits(t) {
        Some(value_of(t))
    } else {
        None
    }
}

/// The number, where a `usize` can hold it.
pub open spec fn usize_of(o: Option<nat>) -> Option<usize> {
    match o {
        Some(n) => if n <= usize::MAX {
            Some(n as usize)
        } else {
            None
        },
        None => None,
    }
}

proof fn lemma_value_grows(s: Seq<char>, k: int)
    requires
        0 <= k <= s.len(),
        all_digits(s),
    ensures
        value_of(s.take(k)) <= value_of(s),
    decreases s.len(),
{
    if k == s.len() {
        assert(s.take(k) =~= s);
    } else {
        assert(s.drop_last().take(k) =~= s.take(k));
        lemma_value_grows(s.drop_last(), k);
        assert(is_digit(s[s.len() - 1]));
    }
}

/// Reads digits as a number, where a `usize` can hold it.
pub fn read_digits(s: &[char]) -> (r: Option<usize>)
    requires
        all_digits(s@),
    ensures
        r == usize_of(Some(value_of(s@))),
{
    let n: usize = s.len();
    let mut v: usize = 0;
    for i in 0..n
        invariant
            n == s@.len(),
            all_digits(s@),
            v == value_of(s@.take(i as int)),
    {
        proof {
            assert(s@.take(i + 1).drop_last() =~= s@.take(i as int));
            assert(is_digit(s@[i as int]));
            lemma_value_grows(s@, i + 1);
        }
        let d: usize = (s[i] as u32 - 48) as usize;
        if v > usize::MAX / 10 || d > usize::MAX - v * 10 {
            return None;
        }
        v = v * 10 + d;
    }
    assert(s@.take(n as int) =~= s@);
    Some(v)
}

/// Reads a text as a number, where a `usize` can hold it.
pub fn read_number(s: &[char]) -> (r: Option<usize>)
    ensures
        r == usize_of(number_of(s@)),
{
    let n: usize = s.len();
    let from: usize = if n > 0 && s[0] == '+' {
        1
    } else {
        0
    };
    let t = slice_subrange(s, from, n);
    proof {
        assert(s@.subrange(1, n as int) =~= s@.skip(1));
        assert(s@.subrange(0, n as int) =~= s@);
    }
    let m: usize = t.len();
    if m == 0 {
        return None;
    }
    for i in 0..m
        invariant
            m == t@.len(),
            t@ == (if s@.len() > 0 && s@[0] == '+' {
                s@.skip(1)
            } else {
                s@
            }),
            forall|k: int| 0 <= k < i ==> is_digit(#[trigger] t@[k]),
    {
        if !is_ascii_digit(t[i]) {
            assert(!is_digit(t@[i as int]));
            return None;
        }
    }
    read_digits(t)
}

// ── Lines ───────────────────────────────────────────────────────────────────

/// A line without the carriage return at its end.
pub open spec fn without_cr(s: Seq<char>) -> Seq<char> {
    if s.len() > 0 && s.last() == '\r' {
        s.drop_last()
    } else {
        s
    }
}

/// Where the line that starts at `from` ends: at the next line feed, or at the
/// end of the text.
pub open spec fn line_end(s: Seq<char>, from: int) -> int
    decreases s.len() - from,
{
    if 0 <= from < s.len() && s[from] != '\n' {
        line_end(s, from + 1)
    } else {
        from
    }
}

/// The lines of the text from `from` on: what stands before each line feed,
/// without a carriage return before it, and what stands behind the last one if
/// that is not empty.
pub open spec fn lines_from(s: Seq<char>, from: int) -> Seq<Seq<char>>
    decreases s.len() - from,
    via lines_decrease
{
    if from < 0 || from >= s.len() {
        Seq::empty()
    } else {
        let end = line_end(s, from);
        if end >= s.len() {
            seq![s.subrange(from, s.len() as int)]
        } else {
            seq![without_cr(s.subrange(from, end))] + lines_from(s, end + 1)
        }
    }
}

#[via_fn]
proof fn lines_decrease(s: Seq<char>, from: int) {
    if 0 <= from < s.len() {
        lemma_line_end(s, from);
    }
}

/// The lines of a text.
pub open spec fn lines_of(s: Seq<char>) -> Seq<Seq<char>> {
    lines_from(s, 0)
}

/// A line ends where the next line feed is, or at the end of the text.
pub proof fn lemma_line_end(s: Seq<char>, from: int)
    requires
        0 <= from <= s.len(),
    ensures
        from <= line_end(s, from) <= s.len(),
        line_end(s, from) < s.len() ==> s[line_end(s, from)] == '\n',
        forall|k: int| from <= k < line_end(s, from) ==> s[k] != '\n',
    decreases s.len() - from,
{
    if from < s.len() && s[from] != '\n' {
        lemma_line_end(s, from + 1);
    }
}

/// The values of a list of character vectors.
pub open spec fn char_views(v: Seq<Vec<char>>) -> Seq<Seq<char>> {
    v.map_values(|l: Vec<char>| l@)
}

/// A copy of a part of some characters.
pub fn copy_range(s: &[char], from: usize, to: usize) -> (r: Vec<char>)
    requires
        from <= to <= s@.len(),
    ensures
        r@ == s@.subrange(from as int, to as int),
{
    let mut r: Vec<char> = Vec::new();
    for i in from..to
        invariant
            from <= i <= to <= s@.len(),
            r@ == s@.subrange(from as int, i as int),
    {
        r.push(s[i]);
        assert(r@ =~= s@.subrange(from as int, i + 1));
    }
    r
}

/// The lines of a text.
pub fn lines(s: &[char]) -> (r: Vec<Vec<char>>)
    ensures
        char_views(r@) == lines_of(s@),
{
    let n: usize = s.len();
    let mut r: Vec<Vec<char>> = Vec::new();
    let mut from: usize = 0;
    assert(char_views(r@) + lines_from(s@, 0) =~= lines_of(s@));
    while from < n
        invariant
            from <= n == s@.len(),
            char_views(r@) + lines_from(s@, from as int) == lines_of(s@),
        decreases n - from,
    {
        let ghost before = char_views(r@);
        let mut end: usize = from;
        while end < n && s[end] != '\n'
            invariant
                from <= end <= n == s@.len(),
                line_end(s@, from as int) == line_end(s@, end as int),
            decreases n - end,
        {
            end = end + 1;
        }
        if end >= n {
            let line = copy_range(s, from, n);
            r.push(line);
            assert(char_views(r@) =~= before + lines_from(s@, from as int));
            assert(lines_from(s@, n as int) =~= Seq::empty());
            assert(char_views(r@) + lines_from(s@, n as int) =~= lines_of(s@));
            from = n;
        } else {
            let mut line = copy_range(s, from, end);
            if line.len() > 0 && line[line.len() - 1] == '\r' {
                let _ = line.pop();
            }
            assert(line@ =~= without_cr(s@.subrange(from as int, end as int)));
            r.push(line);
            assert(char_views(r@) + lines_from(s@, end + 1) =~= before + lines_from(
                s@,
                from as int,
            ));
            from = end + 1;
        }
    }
    assert(lines_from(s@, n as int) =~= Seq::empty());
    assert(char_views(r@) + lines_from(s@, n as int) =~= char_views(r@));
    r
}

// ── Parts ───────────────────────────────────────────────────────────────────

/// Where the part that starts at `from` ends: at the next character that `p`
/// accepts, or at the end of the text.
pub open spec fn part_end(s: Seq<char>, p: spec_fn(char) -> bool, from: int) -> int
    decreases s.len() - from,
{
    if 0 <= from < s.len() && !p(s[from]) {
        part_end(s, p, from + 1)
    } else {
        from
    }
}

/// The parts of the text from `from` on, between the characters that `p`
/// accepts.
pub open spec fn parts_from(s: Seq<char>, p: spec_fn(char) -> bool, from: int) -> Seq<Seq<char>>
    decreases s.len() - from,
    via parts_decrease
{
    if from < 0 || from > s.len() {
        Seq::empty()
    } else {
        let end = part_end(s, p, from);
        if end >= s.len() {
            seq![s.subrange(from, s.len() as int)]
        } else {
            seq![s.subrange(from, end)] + parts_from(s, p, end + 1)
        }
    }
}

#[via_fn]
proof fn parts_decrease(s: Seq<char>, p: spec_fn(char) -> bool, from: int) {
    if 0 <= from <= s.len() {
        lemma_part_end(s, p, from);
    }
}

/// A part ends behind where it starts, and within the text.
pub proof fn lemma_part_end(s: Seq<char>, p: spec_fn(char) -> bool, from: int)
    requires
        0 <= from <= s.len(),
    ensures
        from <= part_end(s, p, from) <= s.len(),
        part_end(s, p, from) < s.len() ==> p(s[part_end(s, p, from)]),
        forall|k: int| from <= k < part_end(s, p, from) ==> !p(#[trigger] s[k]),
    decreases s.len() - from,
{
    if from < s.len() && !p(s[from]) {
        lemma_part_end(s, p, from + 1);
    }
}

/// The parts of a text between the characters that `p` accepts.
pub open spec fn parts_of(s: Seq<char>, p: spec_fn(char) -> bool) -> Seq<Seq<char>> {
    parts_from(s, p, 0)
}

/// The parts that are not empty.
pub open spec fn filled_parts(s: Seq<char>, p: spec_fn(char) -> bool) -> Seq<Seq<char>> {
    parts_of(s, p).filter(|t: Seq<char>| t.len() > 0)
}

/// No part holds a character that parts.
pub proof fn lemma_parts_between(s: Seq<char>, p: spec_fn(char) -> bool, from: int)
    requires
        0 <= from <= s.len(),
    ensures
        forall|i: int, k: int|
            #![trigger parts_from(s, p, from)[i][k]]
            0 <= i < parts_from(s, p, from).len() && 0 <= k < parts_from(
                s,
                p,
                from,
            )[i].len() ==> !p(parts_from(s, p, from)[i][k]),
    decreases s.len() - from,
{
    lemma_part_end(s, p, from);
    let end = part_end(s, p, from);
    let all = parts_from(s, p, from);
    if end < s.len() {
        lemma_parts_between(s, p, end + 1);
        let rest = parts_from(s, p, end + 1);
        assert forall|i: int, k: int|
            #![trigger all[i][k]]
            0 <= i < all.len() && 0 <= k < all[i].len() implies !p(all[i][k]) by {
            if i == 0 {
                assert(all[0] == s.subrange(from, end));
                assert(all[i][k] == s[from + k]);
            } else {
                assert(all[i] == rest[i - 1]);
                assert(!p(rest[i - 1][k]));
            }
        }
    } else {
        assert forall|i: int, k: int|
            #![trigger all[i][k]]
            0 <= i < all.len() && 0 <= k < all[i].len() implies !p(all[i][k]) by {
            assert(all[0] == s.subrange(from, s.len() as int));
            assert(all[i][k] == s[from + k]);
        }
    }
}

/// What a filter leaves is part of the list and passes the filter.
pub proof fn lemma_filter_members(s: Seq<Seq<char>>, p: spec_fn(Seq<char>) -> bool)
    ensures
        forall|i: int|
            0 <= i < s.filter(p).len() ==> s.contains(#[trigger] s.filter(p)[i]) && p(
                s.filter(p)[i],
            ),
    decreases s.len(),
{
    reveal(Seq::filter);
    if s.len() > 0 {
        let front = s.drop_last();
        lemma_filter_members(front, p);
        let all = s.filter(p);
        let kept = front.filter(p);
        assert forall|i: int| 0 <= i < all.len() implies s.contains(#[trigger] all[i]) && p(
            all[i],
        ) by {
            if i < kept.len() {
                assert(all[i] == kept[i]);
                let k = choose|k: int| 0 <= k < front.len() && front[k] == kept[i];
                assert(s[k] == all[i]);
            } else {
                assert(s[s.len() - 1] == all[i]);
            }
        }
    }
}

/// What a filter leaves that passes everything is the list.
pub proof fn lemma_filter_all<A>(s: Seq<A>, p: spec_fn(A) -> bool)
    requires
        forall|i: int| 0 <= i < s.len() ==> p(#[trigger] s[i]),
    ensures
        s.filter(p) == s,
    decreases s.len(),
{
    reveal(Seq::filter);
    if s.len() > 0 {
        lemma_filter_all(s.drop_last(), p);
        assert(s.drop_last().push(s.last()) =~= s);
    } else {
        assert(s.filter(p) =~= s);
    }
}

/// Joining with one more text in front.
pub proof fn lemma_joined_front(a: Seq<char>, rest: Seq<Seq<char>>, sep: Seq<char>)
    requires
        rest.len() > 0,
    ensures
        joined(seq![a] + rest, sep) == a + sep + joined(rest, sep),
    decreases rest.len(),
{
    let all = seq![a] + rest;
    assert(all.drop_last() =~= seq![a] + rest.drop_last());
    if rest.len() > 1 {
        lemma_joined_front(a, rest.drop_last(), sep);
        assert(joined(all, sep) =~= a + sep + joined(rest, sep));
    } else {
        assert(all.drop_last() =~= seq![a]);
        assert(joined(seq![a], sep) == a);
        assert(joined(rest, sep) == rest.last());
        assert(all.last() == rest.last());
    }
}

/// Joining the parts of a text with the character that parted them gives the text.
pub proof fn lemma_parts_joined(s: Seq<char>, c: char, p: spec_fn(char) -> bool, from: int)
    requires
        0 <= from <= s.len(),
        forall|x: char| #[trigger] p(x) <==> x == c,
    ensures
        parts_from(s, p, from).len() > 0,
        joined(parts_from(s, p, from), seq![c]) == s.skip(from),
    decreases s.len() - from,
{
    lemma_part_end(s, p, from);
    let end = part_end(s, p, from);
    if end < s.len() {
        lemma_parts_joined(s, c, p, end + 1);
        lemma_joined_front(s.subrange(from, end), parts_from(s, p, end + 1), seq![c]);
        assert(p(s[end]));
        assert(s.subrange(from, end) + seq![c] + s.skip(end + 1) =~= s.skip(from));
    } else {
        assert(s.subrange(from, s.len() as int) =~= s.skip(from));
    }
}

/// Every character of a part is one of the text.
pub proof fn lemma_parts_within(s: Seq<char>, p: spec_fn(char) -> bool, from: int)
    requires
        0 <= from <= s.len(),
    ensures
        forall|i: int, k: int|
            #![trigger parts_from(s, p, from)[i][k]]
            0 <= i < parts_from(s, p, from).len() && 0 <= k < parts_from(s, p, from)[i].len()
                ==> s.contains(parts_from(s, p, from)[i][k]),
    decreases s.len() - from,
{
    lemma_part_end(s, p, from);
    let end = part_end(s, p, from);
    let all = parts_from(s, p, from);
    if end < s.len() {
        lemma_parts_within(s, p, end + 1);
    }
    let rest = parts_from(s, p, end + 1);
    assert forall|i: int, k: int|
        #![trigger all[i][k]]
        0 <= i < all.len() && 0 <= k < all[i].len() implies s.contains(all[i][k]) by {
        if i == 0 {
            assert(all[i][k] == s[from + k]);
        } else {
            assert(all[i] == rest[i - 1]);
            assert(s.contains(rest[i - 1][k]));
        }
    }
}

/// Parts a text at the characters that `f` accepts.
pub fn split<F: Fn(char) -> bool>(
    s: &[char],
    f: F,
    Ghost(p): Ghost<spec_fn(char) -> bool>,
) -> (r: Vec<Vec<char>>)
    requires
        forall|c: char| #[trigger] call_requires(f, (c,)),
        forall|c: char, b: bool| #[trigger] call_ensures(f, (c,), b) ==> b == p(c),
    ensures
        char_views(r@) == parts_of(s@, p),
{
    let n: usize = s.len();
    let mut r: Vec<Vec<char>> = Vec::new();
    let mut from: usize = 0;
    assert(char_views(r@) + parts_from(s@, p, 0) =~= parts_of(s@, p));
    loop
        invariant
            from <= n == s@.len(),
            forall|c: char| #[trigger] call_requires(f, (c,)),
            forall|c: char, b: bool| #[trigger] call_ensures(f, (c,), b) ==> b == p(c),
            char_views(r@) + parts_from(s@, p, from as int) == parts_of(s@, p),
        decreases n - from,
    {
        let ghost before = char_views(r@);
        let mut end: usize = from;
        while end < n && !f(s[end])
            invariant
                from <= end <= n == s@.len(),
                forall|c: char| #[trigger] call_requires(f, (c,)),
                forall|c: char, b: bool| #[trigger] call_ensures(f, (c,), b) ==> b == p(c),
                part_end(s@, p, from as int) == part_end(s@, p, end as int),
            decreases n - end,
        {
            end = end + 1;
        }
        let part = copy_range(s, from, end);
        r.push(part);
        if end >= n {
            assert(char_views(r@) =~= before + parts_from(s@, p, from as int));
            return r;
        }
        assert(char_views(r@) + parts_from(s@, p, end + 1) =~= before + parts_from(
            s@,
            p,
            from as int,
        ));
        from = end + 1;
    }
}

/// The parts of a text that are not empty.
pub fn split_filled<F: Fn(char) -> bool>(
    s: &[char],
    f: F,
    Ghost(p): Ghost<spec_fn(char) -> bool>,
) -> (r: Vec<String>)
    requires
        forall|c: char| #[trigger] call_requires(f, (c,)),
        forall|c: char, b: bool| #[trigger] call_ensures(f, (c,), b) ==> b == p(c),
    ensures
        texts(r@) == filled_parts(s@, p),
{
    let parts = split(s, f, Ghost(p));
    let ghost all = char_views(parts@);
    let ghost q = |t: Seq<char>| t.len() > 0;
    let n: usize = parts.len();
    let mut r: Vec<String> = Vec::new();
    proof {
        reveal(Seq::filter);
        assert(texts(r@) =~= all.take(0).filter(q));
    }
    for i in 0..n
        invariant
            n == parts@.len(),
            all == char_views(parts@),
            q == |t: Seq<char>| t.len() > 0,
            texts(r@) == all.take(i as int).filter(q),
    {
        proof {
            lemma_filter_take(all, i as int, q);
            assert(all[i as int] == parts@[i as int]@);
        }
        if parts[i].len() > 0 {
            let t = text_of(parts[i].as_slice());
            proof {
                lemma_texts_push(r@, t);
            }
            r.push(t);
        }
    }
    assert(all.take(n as int) =~= all);
    r
}

/// A character in lower case, as Unicode has it.
pub uninterp spec fn char_lowered(c: char) -> Seq<char>;

/// A character in lower case, by `char::to_lowercase`.
///
/// Its result is a function of the character; on an ASCII character it is the
/// one character with `A` to `Z` in lower case.
#[verifier::external_body]
pub(crate) fn lowercase_char(c: char) -> (r: String)
    ensures
        r@ == char_lowered(c),
        (c as u32) < 128 ==> r@ == seq![ascii_lower(c)],
{
    c.to_lowercase().to_string()
}

// ── Order ───────────────────────────────────────────────────────────────────

/// Whether `a` comes before `b`: by the first character in which they differ, or
/// because `b` goes on where `a` ends.
pub open spec fn before(a: Seq<char>, b: Seq<char>) -> bool
    decreases a.len(),
{
    if b.len() == 0 {
        false
    } else if a.len() == 0 {
        true
    } else if a[0] == b[0] {
        before(a.skip(1), b.skip(1))
    } else {
        a[0] < b[0]
    }
}

fn code_of(c: char) -> (r: u32)
    ensures
        r as int == c as int,
{
    c as u32
}

/// Whether one text comes before another.
pub fn comes_before(a: &str, b: &str) -> (r: bool)
    ensures
        r == before(a@, b@),
{
    let x = chars_of(a);
    let y = chars_of(b);
    let n: usize = x.len();
    let m: usize = y.len();
    let mut i: usize = 0;
    assert(x@.skip(0) =~= x@ && y@.skip(0) =~= y@);
    while i < n && i < m
        invariant
            i <= n == x@.len(),
            i <= m == y@.len(),
            before(a@, b@) == before(x@.skip(i as int), y@.skip(i as int)),
        decreases n - i,
    {
        proof {
            assert(x@.skip(i as int)[0] == x@[i as int]);
            assert(y@.skip(i as int)[0] == y@[i as int]);
            assert(x@.skip(i as int).skip(1) =~= x@.skip(i + 1));
            assert(y@.skip(i as int).skip(1) =~= y@.skip(i + 1));
        }
        let c = x[i];
        let d = y[i];
        if c != d {
            return code_of(c) < code_of(d);
        }
        i = i + 1;
    }
    i < m
}

/// Of two different texts one comes before the other, and never both.
pub proof fn lemma_before_is_total(a: Seq<char>, b: Seq<char>)
    ensures
        before(a, b) ==> !before(b, a) && a != b,
        a != b ==> before(a, b) || before(b, a),
    decreases a.len(),
{
    if a.len() > 0 && b.len() > 0 && a[0] == b[0] {
        lemma_before_is_total(a.skip(1), b.skip(1));
        if a.skip(1) == b.skip(1) {
            assert(a =~= seq![a[0]] + a.skip(1));
            assert(b =~= seq![b[0]] + b.skip(1));
        }
    } else if a.len() == 0 && b.len() == 0 {
        assert(a =~= b);
    }
}

/// A text before one that is before another is before that.
pub proof fn lemma_before_chains(a: Seq<char>, b: Seq<char>, c: Seq<char>)
    requires
        before(a, b),
        before(b, c),
    ensures
        before(a, c),
    decreases a.len(),
{
    if a.len() > 0 && a[0] == b[0] && b[0] == c[0] {
        lemma_before_chains(a.skip(1), b.skip(1), c.skip(1));
    }
}

// ── Bytes ───────────────────────────────────────────────────────────────────

/// How many bytes a character takes.
pub open spec fn width(c: char) -> nat {
    if (c as u32) < 0x80 {
        1
    } else if (c as u32) < 0x800 {
        2
    } else if (c as u32) < 0x10000 {
        3
    } else {
        4
    }
}

/// How many bytes a text takes.
pub open spec fn byte_len(s: Seq<char>) -> nat
    decreases s.len(),
{
    if s.len() == 0 {
        0
    } else {
        width(s[0]) + byte_len(s.skip(1))
    }
}

/// How many bytes a character takes.
pub fn char_width(c: char) -> (r: u128)
    ensures
        r == width(c),
        r <= 4,
{
    let u: u32 = c as u32;
    if u < 0x80 {
        1
    } else if u < 0x800 {
        2
    } else if u < 0x10000 {
        3
    } else {
        4
    }
}

/// How many bytes some characters take.
pub fn count_bytes(s: &[char]) -> (r: u128)
    ensures
        r == byte_len(s@),
        r <= 4 * s@.len(),
{
    let n: usize = s.len();
    let mut i: usize = n;
    let mut sum: u128 = 0;
    assert(s@.skip(n as int) =~= Seq::empty());
    while i > 0
        invariant
            i <= n == s@.len(),
            sum == byte_len(s@.skip(i as int)),
            sum <= 4 * (n - i),
        decreases i,
    {
        i = i - 1;
        proof {
            assert(s@.skip(i as int)[0] == s@[i as int]);
            assert(s@.skip(i as int).skip(1) =~= s@.skip(i + 1));
        }
        sum = sum + char_width(s[i]);
    }
    assert(s@.skip(0) =~= s@);
    sum
}

/// The number, where a `u64` can hold it.
pub open spec fn u64_of(o: Option<nat>) -> Option<u64> {
    match o {
        Some(n) => if n <= u64::MAX {
            Some(n as u64)
        } else {
            None
        },
        None => None,
    }
}

/// Reads a text as a number, where a `u64` can hold it.
pub fn read_u64(s: &[char]) -> (r: Option<u64>)
    ensures
        r == u64_of(number_of(s@)),
{
    let n: usize = s.len();
    let from: usize = if n > 0 && s[0] == '+' {
        1
    } else {
        0
    };
    let t = slice_subrange(s, from, n);
    proof {
        assert(s@.subrange(1, n as int) =~= s@.skip(1));
        assert(s@.subrange(0, n as int) =~= s@);
    }
    let m: usize = t.len();
    if m == 0 {
        return None;
    }
    for i in 0..m
        invariant
            m == t@.len(),
            t@ == (if s@.len() > 0 && s@[0] == '+' {
                s@.skip(1)
            } else {
                s@
            }),
            forall|k: int| 0 <= k < i ==> is_digit(#[trigger] t@[k]),
    {
        if !is_ascii_digit(t[i]) {
            assert(!is_digit(t@[i as int]));
            return None;
        }
    }
    let mut v: u64 = 0;
    for i in 0..m
        invariant
            m == t@.len() > 0,
            all_digits(t@),
            t@ == (if s@.len() > 0 && s@[0] == '+' {
                s@.skip(1)
            } else {
                s@
            }),
            v == value_of(t@.take(i as int)),
    {
        proof {
            assert(t@.take(i + 1).drop_last() =~= t@.take(i as int));
            assert(is_digit(t@[i as int]));
            lemma_value_grows(t@, i + 1);
        }
        let d: u64 = (t[i] as u32 - 48) as u64;
        if v > u64::MAX / 10 || d > u64::MAX - v * 10 {
            return None;
        }
        v = v * 10 + d;
    }
    assert(t@.take(m as int) =~= t@);
    Some(v)
}

/// A whole number in decimal notation, with a sign where it is negative.
pub open spec fn signed_dec(n: int) -> Seq<char> {
    if n < 0 {
        "-"@ + dec((-n) as nat)
    } else {
        dec(n as nat)
    }
}

/// A whole number in decimal notation, with a sign where it is negative.
pub fn signed_decimal(n: i64) -> (r: String)
    ensures
        r@ == signed_dec(n as int),
{
    if n == i64::MIN {
        let r = cat2("-", decimal(9_223_372_036_854_775_808).as_str());
        return r;
    }
    if n < 0 {
        cat2("-", decimal((-n) as u64).as_str())
    } else {
        decimal(n as u64)
    }
}

/// The last `n` characters of a text, or all of it where it is shorter.
pub open spec fn last_chars(s: Seq<char>, n: nat) -> Seq<char> {
    if s.len() <= n {
        s
    } else {
        s.skip(s.len() - n)
    }
}

/// The last `n` characters of some characters.
pub fn take_last(s: &[char], n: usize) -> (r: String)
    ensures
        r@ == last_chars(s@, n as nat),
{
    let len: usize = s.len();
    let from: usize = if len <= n {
        0
    } else {
        len - n
    };
    let t = slice_subrange(s, from, len);
    proof {
        assert(s@.subrange(0, len as int) =~= s@);
        assert(len > n ==> s@.subrange(len - n, len as int) =~= s@.skip(len - n));
    }
    text_of(t)
}

/// A copy of some texts.
pub fn copy_texts(v: &Vec<String>) -> (r: Vec<String>)
    ensures
        texts(r@) == texts(v@),
{
    let mut r: Vec<String> = Vec::new();
    let n: usize = v.len();
    for i in 0..n
        invariant
            n == v@.len(),
            texts(r@) == texts(v@.take(i as int)),
    {
        r.push(v[i].clone());
        proof {
            assert(v@.take(i as int + 1) =~= v@.take(i as int).push(v@[i as int]));
            lemma_texts_push(v@.take(i as int), v@[i as int]);
        }
        assert(texts(r@) =~= texts(v@.take(i as int + 1)));
    }
    assert(v@.take(n as int) =~= v@);
    r
}

proof fn lemma_trim_start(s: Seq<char>)
    ensures
        trim_start_of(s).len() > 0 ==> !is_ws(trim_start_of(s)[0]),
    decreases s.len(),
{
    if s.len() > 0 && is_ws(s[0]) {
        lemma_trim_start(s.drop_first());
    }
}

proof fn lemma_trim_end(s: Seq<char>)
    ensures
        trim_end_of(s).is_prefix_of(s),
        trim_end_of(s).len() > 0 ==> !is_ws(trim_end_of(s).last()),
    decreases s.len(),
{
    if s.len() > 0 && is_ws(s.last()) {
        lemma_trim_end(s.drop_last());
        assert(trim_end_of(s) =~= s.subrange(0, trim_end_of(s).len() as int)) by {
            assert(trim_end_of(s) =~= s.drop_last().subrange(0, trim_end_of(s).len() as int));
        }
    } else {
        assert(s =~= s.subrange(0, s.len() as int));
    }
}

/// A text whose white space was taken off has none around it.
pub proof fn lemma_trim_twice(s: Seq<char>)
    ensures
        trim_of(trim_of(s)) == trim_of(s),
{
    let a = trim_start_of(s);
    let b = trim_end_of(a);
    lemma_trim_start(s);
    lemma_trim_end(a);
    if b.len() > 0 {
        assert(b[0] == a.subrange(0, b.len() as int)[0]);
        assert(trim_start_of(b) == b);
    }
    assert(trim_end_of(b) == b);
}

proof fn lemma_trim_start_within(s: Seq<char>)
    ensures
        forall|j: int| 0 <= j < trim_start_of(s).len() ==> s.contains(#[trigger] trim_start_of(s)[j]),
    decreases s.len(),
{
    if s.len() > 0 && is_ws(s[0]) {
        lemma_trim_start_within(s.drop_first());
        assert forall|j: int| 0 <= j < trim_start_of(s).len() implies s.contains(
            #[trigger] trim_start_of(s)[j],
        ) by {
            let rest = s.drop_first();
            assert(rest.contains(trim_start_of(rest)[j]));
            let k = choose|k: int| 0 <= k < rest.len() && rest[k] == trim_start_of(s)[j];
            assert(s[k + 1] == trim_start_of(s)[j]);
        }
    }
}

/// Every character of a trimmed text is one of the text.
pub proof fn lemma_trim_within(s: Seq<char>, j: int)
    requires
        0 <= j < trim_of(s).len(),
    ensures
        s.contains(trim_of(s)[j]),
{
    let a = trim_start_of(s);
    lemma_trim_start_within(s);
    lemma_trim_end(a);
    assert(trim_of(s)[j] == a.subrange(0, trim_of(s).len() as int)[j]);
    assert(s.contains(a[j]));
}

// ── Laws ────────────────────────────────────────────────────────────────────

/// Whether a text is whitespace only.
pub open spec fn is_blank(s: Seq<char>) -> bool {
    forall|i: int| 0 <= i < s.len() ==> is_ws(#[trigger] s[i])
}

/// Whether a text has no whitespace around it.
pub open spec fn is_tight(s: Seq<char>) -> bool {
    s.len() > 0 ==> !is_ws(s[0]) && !is_ws(s.last())
}

/// Whitespace in front of a text makes no difference to what is left of it when
/// its leading whitespace goes.
pub proof fn lemma_trim_start_behind(a: Seq<char>, s: Seq<char>)
    requires
        is_blank(a),
    ensures
        trim_start_of(a + s) == trim_start_of(s),
    decreases a.len(),
{
    if a.len() == 0 {
        assert(a + s =~= s);
    } else {
        assert(is_ws(a[0]));
        assert((a + s).drop_first() =~= a.drop_first() + s);
        assert forall|i: int| 0 <= i < a.drop_first().len() implies is_ws(
            #[trigger] a.drop_first()[i],
        ) by {
            assert(is_ws(a[i + 1]));
        }
        lemma_trim_start_behind(a.drop_first(), s);
    }
}

/// Whitespace behind a text makes no difference to what is left of it when its
/// trailing whitespace goes.
pub proof fn lemma_trim_end_before(s: Seq<char>, b: Seq<char>)
    requires
        is_blank(b),
    ensures
        trim_end_of(s + b) == trim_end_of(s),
    decreases b.len(),
{
    if b.len() == 0 {
        assert(s + b =~= s);
    } else {
        assert(is_ws(b[b.len() - 1]));
        assert((s + b).drop_last() =~= s + b.drop_last());
        assert forall|i: int| 0 <= i < b.drop_last().len() implies is_ws(
            #[trigger] b.drop_last()[i],
        ) by {
            assert(is_ws(b[i]));
        }
        lemma_trim_end_before(s, b.drop_last());
    }
}

/// Trimming takes off the whitespace around a text and nothing else: whatever
/// whitespace stands around a text that has none around it itself, what is left
/// is that text.
pub proof fn law_trim_takes_whitespace(a: Seq<char>, s: Seq<char>, b: Seq<char>)
    requires
        is_blank(a),
        is_blank(b),
        is_tight(s),
    ensures
        trim_of(a + s + b) == s,
{
    lemma_trim_start_behind(a, s + b);
    assert(a + s + b =~= a + (s + b));
    if s.len() > 0 {
        assert((s + b)[0] == s[0]);
        assert(trim_start_of(s + b) == s + b);
        lemma_trim_end_before(s, b);
    } else {
        assert(s + b =~= b);
        assert(b + Seq::<char>::empty() =~= b);
        lemma_trim_start_behind(b, Seq::empty());
        assert(trim_start_of(Seq::<char>::empty()) == Seq::<char>::empty());
        assert(trim_end_of(Seq::<char>::empty()) == Seq::<char>::empty());
    }
}

/// Every text is whitespace, the trimmed text and whitespace, in this order.
pub proof fn lemma_trim_parts(s: Seq<char>) -> (r: (Seq<char>, Seq<char>))
    ensures
        is_blank(r.0),
        is_blank(r.1),
        is_tight(trim_of(s)),
        s == r.0 + trim_of(s) + r.1,
    decreases s.len(),
{
    let none = Seq::<char>::empty();
    if s.len() == 0 {
        law_trim_takes_whitespace(none, none, none);
        assert(none + none + none =~= s);
        (none, none)
    } else if is_ws(s[0]) {
        let t = s.drop_first();
        let p = lemma_trim_parts(t);
        let a = seq![s[0]] + p.0;
        assert forall|i: int| 0 <= i < a.len() implies is_ws(#[trigger] a[i]) by {
            if i > 0 {
                assert(is_ws(p.0[i - 1]));
            }
        }
        assert(s =~= seq![s[0]] + t);
        law_trim_takes_whitespace(a, trim_of(t), p.1);
        assert(s =~= a + trim_of(t) + p.1);
        (a, p.1)
    } else if is_ws(s.last()) {
        let t = s.drop_last();
        let p = lemma_trim_parts(t);
        let b = p.1.push(s.last());
        assert forall|i: int| 0 <= i < b.len() implies is_ws(#[trigger] b[i]) by {
            if i < p.1.len() {
                assert(is_ws(p.1[i]));
            }
        }
        assert(s =~= t.push(s.last()));
        law_trim_takes_whitespace(p.0, trim_of(t), b);
        assert(s =~= p.0 + trim_of(t) + b);
        (p.0, b)
    } else {
        law_trim_takes_whitespace(none, s, none);
        assert(none + s + none =~= s);
        (none, none)
    }
}

/// Nothing is left of a text that is trimmed exactly where it is whitespace only.
pub proof fn law_blank_is_trimmed_away(s: Seq<char>)
    ensures
        trim_of(s).len() == 0 <==> is_blank(s),
{
    let p = lemma_trim_parts(s);
    if trim_of(s).len() == 0 {
        assert forall|i: int| 0 <= i < s.len() implies is_ws(#[trigger] s[i]) by {
            if i < p.0.len() {
                assert(is_ws(p.0[i]));
            } else {
                assert(is_ws(p.1[i - p.0.len()]));
            }
        }
    } else {
        assert(s[p.0.len() as int] == trim_of(s)[0]);
    }
}

/// A number that is written out reads back as itself, and is digits only.
pub proof fn law_number_reads_back(n: nat)
    ensures
        number_of(dec(n)) == Some(n),
        value_of(dec(n)) == n,
        all_digits(dec(n)),
        dec(n).len() > 0,
    decreases n,
{
    let d = dec(n);
    if n < 10 {
        assert(d.drop_last() =~= Seq::<char>::empty());
        assert(value_of(d.drop_last()) == 0);
        assert(is_digit(d[0]));
    } else {
        law_number_reads_back(n / 10);
        assert(d.drop_last() =~= dec(n / 10));
        assert(is_digit(digit(n % 10)));
        assert forall|i: int| 0 <= i < d.len() implies is_digit(#[trigger] d[i]) by {
            if i < dec(n / 10).len() {
                assert(is_digit(dec(n / 10)[i]));
            }
        }
    }
    assert(is_digit(d[0]));
}

/// Whether a text can stand as a line: it has no line feed, and no carriage return
/// at its end.
pub open spec fn is_line(s: Seq<char>) -> bool {
    &&& forall|i: int| 0 <= i < s.len() ==> #[trigger] s[i] != '\n'
    &&& s.len() > 0 ==> s.last() != '\r'
}

proof fn lemma_first_line(s: Seq<char>, from: int, a: Seq<char>)
    requires
        0 <= from,
        at(s, a, from),
        from + a.len() < s.len(),
        s[from + a.len()] == '\n',
        is_line(a),
    ensures
        lines_from(s, from) == seq![a] + lines_from(s, from + a.len() + 1),
{
    lemma_line_end(s, from);
    let end = line_end(s, from);
    let m = a.len() as int;
    assert(end <= from + m);
    if end < from + m {
        assert(s.subrange(from, from + m)[end - from] == s[end]);
    }
    assert(without_cr(a) == a);
}

#[verifier::rlimit(40)]
proof fn lemma_lines_joined(s: Seq<char>, from: int, ls: Seq<Seq<char>>)
    requires
        0 <= from <= s.len(),
        ls.len() > 0,
        s.skip(from) == joined(ls, seq!['\n']),
        forall|i: int| 0 <= i < ls.len() ==> is_line(#[trigger] ls[i]),
        ls.last().len() > 0,
    ensures
        lines_from(s, from) == ls,
    decreases ls.len(),
{
    let a = ls[0];
    let t = s.skip(from);
    assert(is_line(a));
    if ls.len() == 1 {
        assert(t == a);
        lemma_line_end(s, from);
        let end = line_end(s, from);
        if end < s.len() {
            assert(t[end - from] == '\n');
        }
        assert(s.subrange(from, s.len() as int) =~= t);
        assert(lines_from(s, from) =~= ls);
    } else {
        let rest = ls.drop_first();
        let tail = joined(rest, seq!['\n']);
        let m = a.len() as int;
        assert(t == a + seq!['\n'] + tail) by {
            assert(ls =~= seq![a] + rest);
            lemma_joined_front(a, rest, seq!['\n']);
        }
        assert(t.len() == m + 1 + tail.len());
        assert(t.len() == s.len() - from);
        assert(t[m] == '\n');
        assert(s[from + m] == t[m]);
        assert(at(s, a, from)) by {
            assert(from + m <= s.len());
            assert(t.take(m) =~= a);
            assert(s.subrange(from, from + m) =~= t.take(m));
        }
        lemma_first_line(s, from, a);
        assert(s.skip(from + m + 1) =~= tail) by {
            assert(s.skip(from + m + 1) =~= t.skip(m + 1));
            assert(t.skip(m + 1) =~= tail);
        }
        assert forall|i: int| 0 <= i < rest.len() implies is_line(#[trigger] rest[i]) by {
            assert(rest[i] == ls[i + 1]);
        }
        lemma_lines_joined(s, from + m + 1, rest);
        assert(seq![a] + rest =~= ls);
    }
}

/// Lines that are written one below the other are read as they were written. The
/// last one must hold something: a line feed at the end of a text starts no line.
pub proof fn law_lines_read_back(ls: Seq<Seq<char>>)
    requires
        ls.len() > 0,
        forall|i: int| 0 <= i < ls.len() ==> is_line(#[trigger] ls[i]),
        ls.last().len() > 0,
    ensures
        lines_of(joined(ls, seq!['\n'])) == ls,
{
    let s = joined(ls, seq!['\n']);
    assert(s.skip(0) =~= s);
    lemma_lines_joined(s, 0, ls);
}

/// The first `n` characters of a text stand at its start, and are all of it where
/// it has no more; the last `n` stand at its end.
pub proof fn law_first_and_last_chars(a: Seq<char>, b: Seq<char>)
    ensures
        first_chars(a + b, a.len()) == a,
        last_chars(a + b, b.len()) == b,
        forall|n: nat| n >= a.len() ==> #[trigger] first_chars(a, n) == a,
        forall|n: nat| n >= a.len() ==> #[trigger] last_chars(a, n) == a,
{
    assert((a + b).take(a.len() as int) =~= a);
    assert(a.take(a.len() as int) =~= a);
    assert((a + b).skip(a.len() as int) =~= b);
    assert(a.skip(0) =~= a);
}

/// A text stands where it was put.
pub proof fn lemma_part_at(a: Seq<char>, p: Seq<char>, b: Seq<char>)
    ensures
        at(a + p + b, p, a.len() as int),
        has_part(a + p + b, p),
{
    let k = a.len() as int;
    assert((a + p + b).subrange(k, k + p.len()) =~= p);
}

/// The first, the last and the last two of three texts stand in what they make up.
#[verifier::spinoff_prover]
pub proof fn lemma_three_parts(a: Seq<char>, b: Seq<char>, c: Seq<char>)
    ensures
        has_part(a + b + c, a),
        has_part(a + b + c, c),
        has_part(a + b + c, b + c),
{
    let s = a + b + c;
    let i = a.len() as int;
    let j = (a + b).len() as int;
    let n = s.len() as int;
    assert(s.subrange(0, i) =~= a);
    assert(at(s, a, 0));
    assert(s.subrange(j, n) =~= c);
    assert(at(s, c, j));
    assert(s.subrange(i, n) =~= b + c);
    assert(at(s, b + c, i));
}

/// What stands in a part of a text stands in the text.
pub proof fn lemma_part_of_part(a: Seq<char>, p: Seq<char>, b: Seq<char>, q: Seq<char>)
    requires
        has_part(p, q),
    ensures
        has_part(a + p + b, q),
{
    let k = choose|k: int| at(p, q, k);
    let i = a.len() + k;
    assert((a + p + b).subrange(i, i + q.len()) =~= p.subrange(k, k + q.len()));
    assert(at(a + p + b, q, i));
}

/// Every text stands in the text that they are joined to.
pub proof fn lemma_joined_has(s: Seq<Seq<char>>, sep: Seq<char>, i: int)
    requires
        0 <= i < s.len(),
    ensures
        has_part(joined(s, sep), s[i]),
    decreases s.len(),
{
    let all = joined(s, sep);
    let p = s[i];
    if s.len() == 1 {
        assert(all.subrange(0, p.len() as int) =~= p);
        assert(at(all, p, 0));
    } else {
        let front = joined(s.drop_last(), sep);
        if i == s.len() - 1 {
            let k = (front + sep).len() as int;
            assert(all.subrange(k, k + p.len()) =~= p);
            assert(at(all, p, k));
        } else {
            lemma_joined_has(s.drop_last(), sep, i);
            let k = choose|k: int| at(front, p, k);
            assert(all.subrange(k, k + p.len()) =~= front.subrange(k, k + p.len()));
            assert(at(all, p, k));
        }
    }
}

/// What stands in a text that stands in another stands in that one.
pub proof fn lemma_part_chain(t: Seq<char>, p: Seq<char>, q: Seq<char>)
    requires
        has_part(t, p),
        has_part(p, q),
    ensures
        has_part(t, q),
{
    let i = choose|i: int| at(t, p, i);
    let k = choose|k: int| at(p, q, k);
    assert(t.subrange(i + k, i + k + q.len()) =~= p.subrange(k, k + q.len())) by {
        assert(t.subrange(i, i + p.len()) == p);
        assert(p.subrange(k, k + q.len()) =~= t.subrange(i, i + p.len()).subrange(k, k + q.len()));
    }
    assert(at(t, q, i + k));
}

proof fn lemma_part_ends(s: Seq<char>, from: int, w: Seq<char>, p: spec_fn(char) -> bool)
    requires
        at(s, w, from),
        forall|i: int| 0 <= i < w.len() ==> !p(#[trigger] w[i]),
        from + w.len() < s.len() ==> p(s[from + w.len()]),
    ensures
        part_end(s, p, from) == from + w.len(),
{
    lemma_part_end(s, p, from);
    let end = part_end(s, p, from);
    if end < from + w.len() {
        assert(s.subrange(from, from + w.len())[end - from] == s[end]);
    }
    if end > from + w.len() {
        assert(!p(s[from + w.len()]));
    }
}

#[verifier::rlimit(40)]
proof fn lemma_parts_of_joined(
    s: Seq<char>,
    from: int,
    words: Seq<Seq<char>>,
    c: char,
    p: spec_fn(char) -> bool,
)
    requires
        0 <= from <= s.len(),
        words.len() > 0,
        p(c),
        s.skip(from) == joined(words, seq![c]),
        forall|i: int, k: int|
            0 <= i < words.len() && 0 <= k < words[i].len() ==> !p(#[trigger] words[i][k]),
    ensures
        parts_from(s, p, from) == words,
    decreases words.len(),
{
    let w = words[0];
    let t = s.skip(from);
    let m = w.len() as int;
    assert forall|k: int| 0 <= k < w.len() implies !p(#[trigger] w[k]) by {
        assert(!p(words[0][k]));
    }
    if words.len() == 1 {
        assert(t == w);
        assert(s.subrange(from, from + m) =~= w);
        lemma_part_ends(s, from, w, p);
        assert(parts_from(s, p, from) =~= words);
    } else {
        let rest = words.drop_first();
        let tail = joined(rest, seq![c]);
        assert(t == w + seq![c] + tail) by {
            assert(words =~= seq![w] + rest);
            lemma_joined_front(w, rest, seq![c]);
        }
        assert(t.len() == m + 1 + tail.len());
        assert(t[m] == c);
        assert(s[from + m] == t[m]);
        assert(s.subrange(from, from + m) =~= w) by {
            assert(t.take(m) =~= w);
            assert(s.subrange(from, from + m) =~= t.take(m));
        }
        lemma_part_ends(s, from, w, p);
        assert(s.skip(from + m + 1) =~= tail) by {
            assert(t.skip(m + 1) =~= tail);
            assert(s.skip(from + m + 1) =~= t.skip(m + 1));
        }
        assert forall|i: int, k: int| 0 <= i < rest.len() && 0 <= k < rest[i].len() implies !p(
            #[trigger] rest[i][k],
        ) by {
            assert(rest[i] == words[i + 1]);
            assert(!p(words[i + 1][k]));
        }
        lemma_parts_of_joined(s, from + m + 1, rest, c, p);
        assert(seq![w] + rest =~= words);
    }
}

/// Texts that are joined with a character that parts them, and hold no such character
/// themselves, are the parts of the whole.
pub proof fn law_parts_read_back(words: Seq<Seq<char>>, c: char, p: spec_fn(char) -> bool)
    requires
        words.len() > 0,
        p(c),
        forall|i: int, k: int|
            0 <= i < words.len() && 0 <= k < words[i].len() ==> !p(#[trigger] words[i][k]),
    ensures
        parts_of(joined(words, seq![c]), p) == words,
{
    let s = joined(words, seq![c]);
    assert(s.skip(0) =~= s);
    lemma_parts_of_joined(s, 0, words, c, p);
}

} // verus!
