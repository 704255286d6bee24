//! Names of skills and of the repositories that they come from.

use crate::text;
use crate::text::{
    chars_of, join, lowercase_char, same, split_filled, stands_at, str_contains,
    text_of, trim,
};
use vstd::prelude::*;
use vstd::slice::slice_subrange;
use vstd::string::*;

verus! {

// ── Skill names ─────────────────────────────────────────────────────────────

/// Dashes.
pub open spec fn dash() -> spec_fn(char) -> bool {
    |c: char| c == '-'
}

fn is_dash(c: char) -> (b: bool)
    ensures
        b == dash()(c),
{
    c == '-'
}

/// What a character of a name becomes: letters, digits, `-` and `_` in lower
/// case, everything else a dash.
pub open spec fn name_char(c: char) -> Seq<char> {
    if (c as u32) < 128 {
        if text::is_ascii_word(c) || c == '-' || c == '_' {
            seq![text::ascii_lower(c)]
        } else {
            seq!['-']
        }
    } else if text::is_word_char(c) {
        text::char_lowered(c)
    } else {
        seq!['-']
    }
}

/// What the first `n` characters of a name become.
pub open spec fn name_chars(s: Seq<char>, n: int) -> Seq<char>
    decreases n,
{
    if n <= 0 {
        Seq::empty()
    } else {
        name_chars(s, n - 1) + name_char(s[n - 1])
    }
}

/// A name without empty parts between its dashes.
pub open spec fn tidied(s: Seq<char>) -> Seq<char> {
    text::joined(text::filled_parts(s, dash()), "-"@)
}

/// Whether a name holds what could lead to another directory.
pub open spec fn leads_elsewhere(s: Seq<char>) -> bool {
    text::has_part(s, ".."@) || text::has_part(s, "/"@) || text::has_part(s, "\\"@)
}

/// A tidied name, or why it is none.
pub open spec fn settled(cleaned: Seq<char>) -> Result<Seq<char>, Seq<char>> {
    let name = tidied(cleaned);
    if name.len() == 0 {
        Err("Skill 名称无效"@)
    } else if name.len() > 64 {
        Err("Skill 名称过长（最多 64 个字符）"@)
    } else {
        Ok(name)
    }
}

/// The name of a skill as a directory, or why there is none.
pub open spec fn sanitized(name: Seq<char>) -> Result<Seq<char>, Seq<char>> {
    let t = text::trim_of(name);
    if t.len() == 0 {
        Err("Skill 名称不能为空"@)
    } else if leads_elsewhere(t) {
        Err("Skill 名称不能包含路径字符"@)
    } else {
        settled(name_chars(t, t.len() as int))
    }
}

/// The value of a result of texts.
pub open spec fn result_text(r: Result<String, String>) -> Result<Seq<char>, Seq<char>> {
    match r {
        Ok(s) => Ok(s@),
        Err(s) => Err(s@),
    }
}

/// Tidies a name whose characters are already those of a directory.
pub fn settle_name(cleaned: &[char]) -> (r: Result<String, String>)
    ensures
        result_text(r) == settled(cleaned@),
{
    let parts = split_filled(cleaned, is_dash, Ghost(dash()));
    let name = join(&parts, "-");
    let n: usize = name.as_str().unicode_len();
    if n == 0 {
        return Err("Skill 名称无效".to_string());
    }
    if n > 64 {
        return Err("Skill 名称过长（最多 64 个字符）".to_string());
    }
    Ok(name)
}

/// The name of a skill as a directory: lower case, with dashes between its parts.
/// Letters and digits of every script are kept.
pub fn sanitize_skill_name(name: &str) -> (r: Result<String, String>)
    ensures
        result_text(r) == sanitized(name@),
{
    let all = chars_of(name);
    let t = trim(all.as_slice());
    let n: usize = t.len();
    if n == 0 {
        return Err("Skill 名称不能为空".to_string());
    }
    let trimmed = text_of(t);
    if str_contains(trimmed.as_str(), "..") || str_contains(trimmed.as_str(), "/") || str_contains(
        trimmed.as_str(),
        "\\",
    ) {
        return Err("Skill 名称不能包含路径字符".to_string());
    }
    let mut cleaned = String::new();
    for i in 0..n
        invariant
            n == t@.len(),
            cleaned@ == name_chars(t@, i as int),
    {
        let c = t[i];
        if c.is_alphanumeric() || c == '-' || c == '_' {
            cleaned.append(lowercase_char(c).as_str());
        } else {
            cleaned.push('-');
            assert(cleaned@ =~= name_chars(t@, i as int) + seq!['-']);
        }
    }
    settle_name(chars_of(cleaned.as_str()).as_slice())
}

// ── Repositories ────────────────────────────────────────────────────────────

/// Slashes.
pub open spec fn slash() -> spec_fn(char) -> bool {
    |c: char| c == '/'
}

fn is_slash(c: char) -> (b: bool)
    ensures
        b == slash()(c),
{
    c == '/'
}

/// A text without the copies of `p` at its end.
pub open spec fn without_trailing(s: Seq<char>, p: Seq<char>) -> Seq<char>
    decreases s.len(),
{
    if p.len() > 0 && text::ends(s, p) {
        without_trailing(s.take(s.len() - p.len()), p)
    } else {
        s
    }
}

fn drop_trailing<'a>(s: &'a [char], p: &[char]) -> (r: &'a [char])
    requires
        p@.len() > 0,
    ensures
        r@ == without_trailing(s@, p@),
{
    let m: usize = p.len();
    let mut n: usize = s.len();
    assert(s@.take(n as int) =~= s@);
    while n >= m && stands_at(slice_subrange(s, 0, n), p, n - m)
        invariant
            m == p@.len() > 0,
            n <= s@.len(),
            without_trailing(s@.take(n as int), p@) == without_trailing(s@, p@),
        decreases n,
    {
        proof {
            let t = s@.take(n as int);
            assert(s@.subrange(0, n as int) =~= t);
            assert(text::ends(t, p@));
            assert(t.take(n - m) =~= s@.take(n - m));
        }
        n = n - m;
    }
    proof {
        let t = s@.take(n as int);
        assert(s@.subrange(0, n as int) =~= t);
        assert(!text::ends(t, p@));
    }
    slice_subrange(s, 0, n)
}

/// A repository and a path in it.
#[derive(Debug, PartialEq, Eq)]
pub struct GithubSpec {
    pub owner: String,
    pub repo: String,
    pub path: Option<String>,
}

/// A repository and a path in it, as a value.
#[verifier::ext_equal]
pub struct GithubSpecView {
    pub owner: Seq<char>,
    pub repo: Seq<char>,
    pub path: Option<Seq<char>>,
}

impl View for GithubSpec {
    type V = GithubSpecView;

    open spec fn view(&self) -> GithubSpecView {
        GithubSpecView {
            owner: self.owner@,
            repo: self.repo@,
            path: text::opt_text(self.path),
        }
    }
}

/// What names a repository without the parts of an address around it.
pub open spec fn bare_spec(spec: Seq<char>) -> Seq<char> {
    let s = without_trailing(without_trailing(text::trim_of(spec), ".git"@), "/"@);
    if text::starts(s, "https://github.com/"@) {
        s.skip("https://github.com/"@.len() as int)
    } else if text::starts(s, "http://github.com/"@) {
        s.skip("http://github.com/"@.len() as int)
    } else if text::starts(s, "github.com/"@) {
        s.skip("github.com/"@.len() as int)
    } else {
        s
    }
}

/// Whether a part of a path holds what no file name may.
pub open spec fn is_foreign(s: Seq<char>) -> bool {
    text::has_part(s, "\\"@) || text::has_part(s, ":"@)
}

/// What is wrong with the first of the parts from `k` on that is no file name.
pub open spec fn path_fault(parts: Seq<Seq<char>>, path: Seq<char>, k: int) -> Option<Seq<char>>
    decreases parts.len() - k,
{
    if k < 0 || k >= parts.len() {
        None
    } else if parts[k] == ".."@ {
        Some("非法路径（不允许 `..`）: "@ + path)
    } else if is_foreign(parts[k]) {
        Some("非法路径: "@ + path)
    } else {
        path_fault(parts, path, k + 1)
    }
}

/// The repository and the path that a spec names, or what is wrong with it.
pub open spec fn github_spec(spec: Seq<char>) -> Result<GithubSpecView, Seq<char>> {
    let parts = text::filled_parts(bare_spec(spec), slash());
    let path = text::joined(parts.skip(2), "/"@);
    if parts.len() < 2 {
        Err("格式应为 owner/repo 或 owner/repo/skill-path（见 https://www.skills.sh/）"@)
    } else if text::has_part(parts[0], ".."@) || text::has_part(parts[1], ".."@) || is_foreign(
        parts[0],
    ) || is_foreign(parts[1]) {
        Err("非法仓库名"@)
    } else if parts.len() == 2 {
        Ok(GithubSpecView { owner: parts[0], repo: parts[1], path: None })
    } else {
        match path_fault(parts.skip(2), path, 0) {
            Some(e) => Err(e),
            None => Ok(GithubSpecView { owner: parts[0], repo: parts[1], path: Some(path) }),
        }
    }
}

fn strip_address<'a>(s: &'a [char], p: &str) -> (r: Option<&'a [char]>)
    ensures
        match r {
            Some(t) => text::starts(s@, p@) && t@ == s@.skip(p@.len() as int),
            None => !text::starts(s@, p@),
        },
{
    let p = chars_of(p);
    let m: usize = p.len();
    let n: usize = s.len();
    if m <= n && stands_at(s, p.as_slice(), 0) {
        let t = slice_subrange(s, m, n);
        assert(t@ =~= s@.skip(m as int));
        Some(t)
    } else {
        None
    }
}

fn foreign(s: &str) -> (b: bool)
    ensures
        b == is_foreign(s@),
{
    str_contains(s, "\\") || str_contains(s, ":")
}

/// Reads what names a repository: `owner/repo`, `owner/repo/path`, or an address
/// on GitHub. A path that could lead out of the repository is an error.
pub fn parse_github_spec(spec: &str) -> (r: Result<GithubSpec, String>)
    ensures
        match r {
            Ok(g) => github_spec(spec@) == Ok::<GithubSpecView, Seq<char>>(g@),
            Err(e) => github_spec(spec@) == Err::<GithubSpecView, Seq<char>>(e@),
        },
{
    proof {
        reveal_strlit(".git");
        reveal_strlit("/");
    }
    let all = chars_of(spec);
    let git = chars_of(".git");
    let sep = chars_of("/");
    let s = drop_trailing(
        drop_trailing(trim(all.as_slice()), git.as_slice()),
        sep.as_slice(),
    );
    let s = match strip_address(s, "https://github.com/") {
        Some(t) => t,
        None => match strip_address(s, "http://github.com/") {
            Some(t) => t,
            None => match strip_address(s, "github.com/") {
                Some(t) => t,
                None => s,
            },
        },
    };
    assert(s@ == bare_spec(spec@));
    let parts = split_filled(s, is_slash, Ghost(slash()));
    let ghost v = text::texts(parts@);
    let n: usize = parts.len();
    assert(v.len() == n);
    if n < 2 {
        return Err(
            "格式应为 owner/repo 或 owner/repo/skill-path（见 https://www.skills.sh/）".to_string(),
        );
    }
    assert(v[0] == parts@[0]@ && v[1] == parts@[1]@);
    let owner = parts[0].as_str();
    let repo = parts[1].as_str();
    if str_contains(owner, "..") || str_contains(repo, "..") || foreign(owner) || foreign(repo) {
        return Err("非法仓库名".to_string());
    }
    if n == 2 {
        return Ok(GithubSpec { owner: owner.to_string(), repo: repo.to_string(), path: None });
    }
    let mut tail: Vec<String> = Vec::new();
    for i in 2..n
        invariant
            n == parts@.len(),
            v == text::texts(parts@),
            text::texts(tail@) == v.skip(2).take(i - 2),
    {
        let t = parts[i].clone();
        proof {
            text::lemma_texts_push(tail@, t);
            assert(v.skip(2).take(i - 1) =~= v.skip(2).take(i - 2).push(v[i as int]));
        }
        tail.push(t);
    }
    assert(v.skip(2).take(n - 2) =~= v.skip(2));
    let path = join(&tail, "/");
    let m: usize = tail.len();
    for i in 0..m
        invariant
            m == tail@.len(),
            text::texts(tail@) == v.skip(2),
            path_fault(v.skip(2), path@, 0) == path_fault(v.skip(2), path@, i as int),
            path@ == text::joined(v.skip(2), "/"@),
            v.len() > 2,
            v == text::filled_parts(bare_spec(spec@), slash()),
            !(text::has_part(v[0], ".."@) || text::has_part(v[1], ".."@) || is_foreign(v[0])
                || is_foreign(v[1])),
    {
        assert(v.skip(2)[i as int] == tail@[i as int]@);
        let part = tail[i].as_str();
        if same(part, "..") {
            return Err(text::cat2("非法路径（不允许 `..`）: ", path.as_str()));
        }
        if foreign(part) {
            return Err(text::cat2("非法路径: ", path.as_str()));
        }
    }
    Ok(GithubSpec { owner: owner.to_string(), repo: repo.to_string(), path: Some(path) })
}

// ── Laws ────────────────────────────────────────────────────────────────────

proof fn lemma_path_fault(parts: Seq<Seq<char>>, path: Seq<char>, k: int, i: int)
    requires
        0 <= k <= i < parts.len(),
        path_fault(parts, path, k) is None,
    ensures
        parts[i] != ".."@,
        !is_foreign(parts[i]),
    decreases i - k,
{
    if k < i {
        lemma_path_fault(parts, path, k + 1, i);
    }
}

/// A path in a repository never leads out of it: none of its parts is `..`, and
/// none holds a backslash or a colon.
pub proof fn law_repository_path_stays_inside(spec: Seq<char>)
    ensures
        github_spec(spec) matches Ok(g) ==> (g.path matches Some(path) ==> {
            let parts = text::filled_parts(bare_spec(spec), slash()).skip(2);
            &&& path == text::joined(parts, "/"@)
            &&& forall|i: int|
                0 <= i < parts.len() ==> (#[trigger] parts[i]) != ".."@ && !is_foreign(parts[i])
        }),
{
    let parts = text::filled_parts(bare_spec(spec), slash()).skip(2);
    let path = text::joined(parts, "/"@);
    if path_fault(parts, path, 0) is None {
        assert forall|i: int| 0 <= i < parts.len() implies (#[trigger] parts[i]) != ".."@
            && !is_foreign(parts[i]) by {
            lemma_path_fault(parts, path, 0, i);
        }
    }
}

/// Whether a text has no dash at its ends and no two in a row.
pub open spec fn is_tidy(s: Seq<char>) -> bool {
    &&& s.len() > 0
    &&& s[0] != '-'
    &&& s.last() != '-'
    &&& forall|i: int| 0 <= i < s.len() - 1 ==> #[trigger] s[i] != '-' || s[i + 1] != '-'
}

/// The characters of a name that ASCII has.
pub open spec fn is_plain(c: char) -> bool {
    'a' <= c <= 'z' || '0' <= c <= '9' || c == '-' || c == '_'
}

/// Whether a character comes from a letter or digit of the name that ASCII does not
/// have, by its lower case.
pub open spec fn from_other_script(name: Seq<char>, c: char) -> bool {
    exists|j: int|
        0 <= j < name.len() && name[j] as u32 >= 128 && text::is_word_char(name[j])
            && text::char_lowered(#[trigger] name[j]).contains(c)
}

/// Joined texts without dashes, none of them empty, are tidy and hold nothing but
/// their own characters and dashes.
proof fn lemma_joined_is_tidy(parts: Seq<Seq<char>>, s: Seq<char>)
    requires
        parts.len() > 0,
        forall|i: int| 0 <= i < parts.len() ==> (#[trigger] parts[i]).len() > 0,
        forall|i: int, k: int|
            #![trigger parts[i][k]]
            0 <= i < parts.len() && 0 <= k < parts[i].len() ==> parts[i][k] != '-' && s.contains(
                parts[i][k],
            ),
    ensures
        is_tidy(text::joined(parts, "-"@)),
        forall|i: int|
            0 <= i < text::joined(parts, "-"@).len() ==> #[trigger] text::joined(parts, "-"@)[i]
                == '-' || s.contains(text::joined(parts, "-"@)[i]),
    decreases parts.len(),
{
    reveal_strlit("-");
    let all = text::joined(parts, "-"@);
    let last = parts.last();
    let n = parts.len() - 1;
    if n == 0 {
        assert(all == parts[0]);
        assert forall|i: int| 0 <= i < all.len() implies #[trigger] all[i] == '-' || s.contains(
            all[i],
        ) by {
            assert(s.contains(parts[0][i]));
        }
        assert(parts[0][0] != '-');
        assert(parts[0][all.len() - 1] != '-');
        assert forall|i: int| 0 <= i < all.len() - 1 implies #[trigger] all[i] != '-' || all[i + 1]
            != '-' by {
            assert(parts[0][i] != '-');
        }
    } else {
        let front = parts.drop_last();
        assert forall|i: int, k: int|
            #![trigger front[i][k]]
            0 <= i < front.len() && 0 <= k < front[i].len() implies front[i][k] != '-'
            && s.contains(front[i][k]) by {
            assert(front[i][k] == parts[i][k]);
        }
        lemma_joined_is_tidy(front, s);
        let b = text::joined(front, "-"@);
        assert(all == b + "-"@ + last);
        assert forall|i: int| 0 <= i < all.len() implies #[trigger] all[i] == '-' || s.contains(
            all[i],
        ) by {
            if i < b.len() {
                assert(all[i] == b[i]);
            } else if i > b.len() {
                assert(all[i] == parts[n][i - b.len() - 1]);
            }
        }
        assert(parts[n][0] != '-');
        assert(parts[n][last.len() - 1] != '-');
        assert(all[0] == b[0]);
        assert(all.last() == last.last());
        assert forall|i: int| 0 <= i < all.len() - 1 implies #[trigger] all[i] != '-' || all[i + 1]
            != '-' by {
            if i < b.len() - 1 {
                assert(all[i] == b[i] && all[i + 1] == b[i + 1]);
            } else if i == b.len() - 1 {
                assert(all[i] == b.last());
            } else {
                assert(all[i + 1] == parts[n][i - b.len()]);
            }
        }
    }
}

/// Tidying makes a text tidy, unless nothing is left of it, and adds no character but
/// dashes.
proof fn lemma_tidied_is_tidy(s: Seq<char>)
    ensures
        tidied(s).len() > 0 ==> is_tidy(tidied(s)),
        forall|i: int|
            0 <= i < tidied(s).len() ==> #[trigger] tidied(s)[i] == '-' || s.contains(tidied(s)[i]),
{
    let parts = text::parts_of(s, dash());
    let filled = text::filled_parts(s, dash());
    let q = |t: Seq<char>| t.len() > 0;
    text::lemma_parts_between(s, dash(), 0);
    text::lemma_parts_within(s, dash(), 0);
    text::lemma_filter_members(parts, q);
    assert forall|i: int, k: int|
        #![trigger filled[i][k]]
        0 <= i < filled.len() && 0 <= k < filled[i].len() implies filled[i][k] != '-' && s.contains(
        filled[i][k],
    ) by {
        let m = choose|m: int| 0 <= m < parts.len() && parts[m] == filled[i];
        assert(!dash()(parts[m][k]));
        assert(s.contains(parts[m][k]));
    }
    if filled.len() > 0 {
        lemma_joined_is_tidy(filled, s);
    }
}

proof fn lemma_tidy_parts(s: Seq<char>, from: int)
    requires
        is_tidy(s),
        0 <= from < s.len(),
        s[from] != '-',
    ensures
        forall|i: int|
            0 <= i < text::parts_from(s, dash(), from).len() ==> (#[trigger] text::parts_from(
                s,
                dash(),
                from,
            )[i]).len() > 0,
    decreases s.len() - from,
{
    text::lemma_part_end(s, dash(), from);
    let end = text::part_end(s, dash(), from);
    assert(!dash()(s[from]));
    if end < s.len() {
        assert(dash()(s[end]));
        assert(end < s.len() - 1);
        assert(s[end + 1] != '-');
        lemma_tidy_parts(s, end + 1);
        let rest = text::parts_from(s, dash(), end + 1);
        let all = text::parts_from(s, dash(), from);
        assert forall|i: int| 0 <= i < all.len() implies (#[trigger] all[i]).len() > 0 by {
            if i > 0 {
                assert(all[i] == rest[i - 1]);
            }
        }
    }
}

/// What is tidy is left as it is.
proof fn lemma_tidy_stays(s: Seq<char>)
    requires
        is_tidy(s),
    ensures
        tidied(s) == s,
{
    reveal_strlit("-");
    assert("-"@ =~= seq!['-']);
    let q = |t: Seq<char>| t.len() > 0;
    lemma_tidy_parts(s, 0);
    text::lemma_filter_all(text::parts_of(s, dash()), q);
    text::lemma_parts_joined(s, '-', dash(), 0);
    assert(s.skip(0) =~= s);
}

/// Where the characters of a name come from.
proof fn lemma_name_chars(s: Seq<char>, n: int)
    requires
        0 <= n <= s.len(),
    ensures
        forall|i: int|
            0 <= i < name_chars(s, n).len() ==> is_plain(#[trigger] name_chars(s, n)[i])
                || from_other_script(s, name_chars(s, n)[i]),
    decreases n,
{
    if n > 0 {
        lemma_name_chars(s, n - 1);
        let front = name_chars(s, n - 1);
        let all = name_chars(s, n);
        let c = s[n - 1];
        assert forall|i: int| 0 <= i < all.len() implies is_plain(#[trigger] all[i])
            || from_other_script(s, all[i]) by {
            if i < front.len() {
                assert(all[i] == front[i]);
            } else {
                assert(all[i] == name_char(c)[i - front.len()]);
                if c as u32 >= 128 && text::is_word_char(c) {
                    assert(text::char_lowered(s[n - 1]).contains(all[i]));
                }
            }
        }
    }
}

proof fn lemma_plain_name_stays(s: Seq<char>, n: int)
    requires
        0 <= n <= s.len(),
        forall|i: int| 0 <= i < s.len() ==> is_plain(#[trigger] s[i]),
    ensures
        name_chars(s, n) == s.take(n),
    decreases n,
{
    if n > 0 {
        lemma_plain_name_stays(s, n - 1);
        assert(is_plain(s[n - 1]));
        assert(name_char(s[n - 1]) =~= seq![s[n - 1]]);
        assert(s.take(n) =~= s.take(n - 1) + seq![s[n - 1]]);
    } else {
        assert(s.take(n) =~= Seq::empty());
    }
}

proof fn lemma_plain_leads_nowhere(s: Seq<char>)
    requires
        forall|i: int| 0 <= i < s.len() ==> is_plain(#[trigger] s[i]),
    ensures
        !leads_elsewhere(s),
{
    reveal_strlit("..");
    reveal_strlit("/");
    reveal_strlit("\\");
    assert forall|i: int| #![trigger text::at(s, ".."@, i)] !text::at(s, ".."@, i) by {
        if text::at(s, ".."@, i) {
            assert(s.subrange(i, i + 2)[0] == s[i]);
            assert(is_plain(s[i]));
        }
    }
    assert forall|i: int| #![trigger text::at(s, "/"@, i)] !text::at(s, "/"@, i) by {
        if text::at(s, "/"@, i) {
            assert(s.subrange(i, i + 1)[0] == s[i]);
            assert(is_plain(s[i]));
        }
    }
    assert forall|i: int| #![trigger text::at(s, "\\"@, i)] !text::at(s, "\\"@, i) by {
        if text::at(s, "\\"@, i) {
            assert(s.subrange(i, i + 1)[0] == s[i]);
            assert(is_plain(s[i]));
        }
    }
}

/// A name that holds `..`, a slash or a backslash is refused. One that is accepted
/// has between 1 and 64 characters, no dash at its ends and no two in a row; each
/// character is a lower-case ASCII letter, a digit, a dash or an underscore, or comes
/// from a letter of another script.
pub proof fn law_skill_name_is_safe(name: Seq<char>)
    ensures
        leads_elsewhere(text::trim_of(name)) ==> sanitized(name) is Err,
        sanitized(name) matches Ok(r) ==> {
            &&& 1 <= r.len() <= 64
            &&& is_tidy(r)
            &&& forall|i: int|
                0 <= i < r.len() ==> is_plain(#[trigger] r[i]) || from_other_script(
                    text::trim_of(name),
                    r[i],
                )
        },
{
    let t = text::trim_of(name);
    let cleaned = name_chars(t, t.len() as int);
    lemma_name_chars(t, t.len() as int);
    lemma_tidied_is_tidy(cleaned);
    if sanitized(name) is Ok {
        let r = sanitized(name)->Ok_0;
        assert forall|i: int| 0 <= i < r.len() implies is_plain(#[trigger] r[i])
            || from_other_script(t, r[i]) by {
            if r[i] != '-' {
                let k = choose|k: int| 0 <= k < cleaned.len() && cleaned[k] == r[i];
                assert(is_plain(cleaned[k]) || from_other_script(t, cleaned[k]));
            }
        }
    }
}

/// The name of a skill whose name is ASCII is made of lower-case letters, digits,
/// dashes and underscores, so it holds no dot, slash, backslash or whitespace; and it
/// is its own name as a directory.
pub proof fn law_plain_skill_name_is_its_own(name: Seq<char>)
    requires
        forall|i: int| 0 <= i < name.len() ==> (#[trigger] name[i] as u32) < 128,
    ensures
        sanitized(name) matches Ok(r) ==> {
            &&& forall|i: int|
                0 <= i < r.len() ==> is_plain(#[trigger] r[i]) && !text::is_ws(r[i])
            &&& !leads_elsewhere(r)
            &&& sanitized(r) == sanitized(name)
        },
{
    law_skill_name_is_safe(name);
    if sanitized(name) is Ok {
        let t = text::trim_of(name);
        let r = sanitized(name)->Ok_0;
        assert forall|j: int| 0 <= j < t.len() implies (#[trigger] t[j] as u32) < 128 by {
            text::lemma_trim_within(name, j);
            let k = choose|k: int| 0 <= k < name.len() && name[k] == t[j];
            assert((name[k] as u32) < 128);
        }
        assert forall|i: int| 0 <= i < r.len() implies is_plain(#[trigger] r[i]) && !text::is_ws(
            r[i],
        ) by {
            assert(!from_other_script(t, r[i]));
        }
        lemma_plain_leads_nowhere(r);
        lemma_plain_name_stays(r, r.len() as int);
        assert(r.take(r.len() as int) =~= r);
        lemma_tidy_stays(r);
        assert(!text::is_ws(r[0]) && !text::is_ws(r[r.len() - 1]));
        assert(text::trim_of(r) == r);
    }
}

/// Whether a text can stand as a part of a repository's address: letters, digits, dashes,
/// underscores and single dots.
pub open spec fn is_address_part(s: Seq<char>) -> bool {
    &&& s.len() > 0
    &&& forall|i: int|
        0 <= i < s.len() ==> text::is_ascii_word(#[trigger] s[i]) || s[i] == '-' || s[i] == '_' || s[i]
            == '.'
    &&& !text::has_part(s, ".."@)
    &&& !text::ends(s, ".git"@)
}

proof fn lemma_not_foreign(s: Seq<char>)
    requires
        is_address_part(s),
    ensures
        !is_foreign(s),
        s != ".."@,
        text::is_tight(s),
        forall|k: int| 0 <= k < s.len() ==> !slash()(#[trigger] s[k]) && s[k] != ':' && s[k] != '\\',
{
    reveal_strlit("\\");
    reveal_strlit(":");
    reveal_strlit("..");
    assert forall|k: int| 0 <= k < s.len() implies !slash()(#[trigger] s[k]) && s[k] != ':' && s[k]
        != '\\' by {
        assert(text::is_ascii_word(s[k]) || s[k] == '-' || s[k] == '_' || s[k] == '.');
    }
    if text::has_part(s, "\\"@) {
        let i = choose|i: int| text::at(s, "\\"@, i);
        assert(s.subrange(i, i + 1)[0] == s[i]);
    }
    if text::has_part(s, ":"@) {
        let i = choose|i: int| text::at(s, ":"@, i);
        assert(s.subrange(i, i + 1)[0] == s[i]);
    }
    if s == ".."@ {
        assert(s.subrange(0, 2) =~= ".."@);
        assert(text::at(s, ".."@, 0));
    }
    assert(text::is_ascii_word(s[0]) || s[0] == '-' || s[0] == '_' || s[0] == '.');
    let l = s.len() - 1;
    assert(text::is_ascii_word(s[l]) || s[l] == '-' || s[l] == '_' || s[l] == '.');
}

proof fn lemma_no_fault(parts: Seq<Seq<char>>, path: Seq<char>, k: int)
    requires
        0 <= k <= parts.len(),
        forall|i: int| 0 <= i < parts.len() ==> is_address_part(#[trigger] parts[i]),
    ensures
        path_fault(parts, path, k) is None,
    decreases parts.len() - k,
{
    if k < parts.len() {
        assert(is_address_part(parts[k]));
        lemma_not_foreign(parts[k]);
        lemma_no_fault(parts, path, k + 1);
    }
}

/// The end of parts that are joined is the last of them, behind a slash where there are
/// more.
proof fn lemma_joined_end(parts: Seq<Seq<char>>)
    requires
        parts.len() >= 2,
    ensures
        ({
            let s = text::joined(parts, seq!['/']);
            let m = parts.last().len() as int;
            &&& s.len() > m
            &&& s.skip(s.len() - m) == parts.last()
            &&& s[s.len() - m - 1] == '/'
        }),
{
    let s = text::joined(parts, seq!['/']);
    let m = parts.last().len() as int;
    assert(s.skip(s.len() - m) =~= parts.last());
}

proof fn lemma_last_part_ends(s: Seq<char>, l: Seq<char>)
    requires
        0 < l.len() < s.len(),
        s.skip(s.len() - l.len()) == l,
        s[s.len() - l.len() - 1] == '/',
        !text::ends(l, ".git"@),
        l.last() != '/',
    ensures
        !text::ends(s, ".git"@),
        !text::ends(s, "/"@),
        s.last() == l.last(),
{
    let n = s.len() as int;
    let m = l.len() as int;
    reveal_strlit(".git");
    reveal_strlit("/");
    assert(s.skip(n - m)[m - 1] == s[n - 1]);
    if text::ends(s, ".git"@) {
        assert(s.subrange(n - 4, n) == ".git"@);
        if m >= 4 {
            assert(s.skip(n - m).subrange(m - 4, m) =~= s.subrange(n - 4, n));
            assert(text::ends(l, ".git"@));
        } else {
            assert(s.subrange(n - 4, n)[3 - m] == s[n - m - 1]);
        }
    }
    if text::ends(s, "/"@) {
        assert(s.subrange(n - 1, n)[0] == s[n - 1]);
    }
}

proof fn lemma_address_end(parts: Seq<Seq<char>>)
    requires
        parts.len() >= 2,
        forall|i: int| 0 <= i < parts.len() ==> is_address_part(#[trigger] parts[i]),
    ensures
        !text::ends(text::joined(parts, seq!['/']), ".git"@),
        !text::ends(text::joined(parts, seq!['/']), "/"@),
        text::is_tight(text::joined(parts, seq!['/'])),
{
    let s = text::joined(parts, seq!['/']);
    let l = parts.last();
    let first = parts[0];
    assert(is_address_part(parts[parts.len() - 1]));
    assert(is_address_part(first));
    lemma_not_foreign(l);
    lemma_not_foreign(first);
    lemma_joined_end(parts);
    assert(!slash()(l[l.len() - 1]));
    lemma_last_part_ends(s, l);
    assert(s[0] == first[0]) by {
        let rest = parts.drop_first();
        assert(parts =~= seq![first] + rest);
        text::lemma_joined_front(first, rest, seq!['/']);
    }
}

#[verifier::rlimit(40)]
proof fn lemma_no_prefix(parts: Seq<Seq<char>>, p: Seq<char>)
    requires
        parts.len() >= 2,
        forall|i: int| 0 <= i < parts.len() ==> is_address_part(#[trigger] parts[i]),
        parts[0] != "github.com"@,
        p == "https://github.com/"@ || p == "http://github.com/"@ || p == "github.com/"@,
    ensures
        !text::starts(text::joined(parts, seq!['/']), p),
{
    let s = text::joined(parts, seq!['/']);
    let a = parts[0];
    let m = a.len() as int;
    assert(is_address_part(parts[0]));
    lemma_not_foreign(a);
    let rest = parts.drop_first();
    assert(parts =~= seq![a] + rest);
    text::lemma_joined_front(a, rest, seq!['/']);
    reveal_strlit("https://github.com/");
    reveal_strlit("http://github.com/");
    reveal_strlit("github.com/");
    reveal_strlit("github.com");
    if text::starts(s, p) {
        let q = s.subrange(0, p.len() as int);
        assert(q == p);
        assert forall|i: int| 0 <= i < m && i < p.len() implies p[i] == #[trigger] a[i] by {
            assert(q[i] == s[i]);
        }
        assert(m < p.len() ==> p[m] == '/') by {
            if m < p.len() {
                assert(q[m] == s[m]);
            }
        }
        if p == "github.com/"@ {
            if m > 10 {
                assert(a[10] == '/');
                assert(slash()(a[10]));
            } else {
                assert(m == 10);
                assert(a =~= "github.com"@);
            }
        } else {
            let c = if p == "https://github.com/"@ {
                5int
            } else {
                4int
            };
            assert(p[c] == ':');
            if m > c {
                assert(a[c] == ':');
            } else {
                assert(p[m] == '/');
            }
        }
    }
}

#[verifier::spinoff_prover]
proof fn lemma_address_is_tight(host: Seq<char>, s: Seq<char>, suffix: Seq<char>)
    requires
        host == ""@ || host == "https://github.com/"@ || host == "http://github.com/"@ || host
            == "github.com/"@,
        suffix == ""@ || suffix == ".git"@,
        s.len() > 0,
        text::is_tight(s),
    ensures
        text::is_tight(host + s + suffix),
{
    let spec = host + s + suffix;
    reveal_strlit("");
    reveal_strlit(".git");
    reveal_strlit("https://github.com/");
    reveal_strlit("http://github.com/");
    reveal_strlit("github.com/");
    if host.len() == 0 {
        assert(spec[0] == s[0]);
    } else {
        assert(spec[0] == host[0]);
    }
    if suffix.len() == 0 {
        assert(spec.last() == s.last());
    } else {
        assert(spec.last() == 't');
    }
}

#[verifier::spinoff_prover]
proof fn lemma_suffix_is_dropped(hs: Seq<char>, suffix: Seq<char>)
    requires
        suffix == ""@ || suffix == ".git"@,
        !text::ends(hs, ".git"@),
    ensures
        without_trailing(hs + suffix, ".git"@) == hs,
{
    let spec = hs + suffix;
    reveal_strlit("");
    reveal_strlit(".git");
    if suffix.len() == 0 {
        assert(spec =~= hs);
    } else {
        let n = spec.len() as int;
        assert(spec.subrange(n - 4, n) =~= ".git"@);
        assert(text::ends(spec, ".git"@));
        assert(spec.take(n - 4) =~= hs);
    }
    assert(without_trailing(hs, ".git"@) == hs);
    reveal_with_fuel(without_trailing, 2);
}

/// An address is read as it was written: the owner, the repository and the path in it, with
/// or without the host before them and `.git` behind.
#[verifier::spinoff_prover]
#[verifier::rlimit(40)]
pub proof fn law_address_reads_back(host: Seq<char>, parts: Seq<Seq<char>>, suffix: Seq<char>)
    requires
        host == ""@ || host == "https://github.com/"@ || host == "http://github.com/"@ || host
            == "github.com/"@,
        suffix == ""@ || suffix == ".git"@,
        parts.len() >= 2,
        forall|i: int| 0 <= i < parts.len() ==> is_address_part(#[trigger] parts[i]),
        parts[0] != "github.com"@,
    ensures
        github_spec(host + text::joined(parts, seq!['/']) + suffix) == Ok::<
            GithubSpecView,
            Seq<char>,
        >(
            GithubSpecView {
                owner: parts[0],
                repo: parts[1],
                path: if parts.len() == 2 {
                    None
                } else {
                    Some(text::joined(parts.skip(2), seq!['/']))
                },
            },
        ),
{
    let none = Seq::<char>::empty();
    let s = text::joined(parts, seq!['/']);
    let hs = host + s;
    let spec = hs + suffix;
    lemma_address_end(parts);
    lemma_joined_end(parts);
    assert(text::trim_of(spec) == spec) by {
        lemma_address_is_tight(host, s, suffix);
        text::law_trim_takes_whitespace(none, spec, none);
        assert(none + spec + none =~= spec);
    }
    lemma_end_of_tail(host, s, parts.last().len() as int);
    lemma_suffix_is_dropped(hs, suffix);
    assert(without_trailing(hs, "/"@) == hs);
    lemma_host_is_dropped(host, parts);
    assert(bare_spec(spec) == s);
    lemma_address_parts(parts);
}

/// What is left of an address without its host.
pub open spec fn without_host(s: Seq<char>) -> Seq<char> {
    if text::starts(s, "https://github.com/"@) {
        s.skip("https://github.com/"@.len() as int)
    } else if text::starts(s, "http://github.com/"@) {
        s.skip("http://github.com/"@.len() as int)
    } else if text::starts(s, "github.com/"@) {
        s.skip("github.com/"@.len() as int)
    } else {
        s
    }
}

proof fn lemma_host_is_dropped(host: Seq<char>, parts: Seq<Seq<char>>)
    requires
        host == ""@ || host == "https://github.com/"@ || host == "http://github.com/"@ || host
            == "github.com/"@,
        parts.len() >= 2,
        forall|i: int| 0 <= i < parts.len() ==> is_address_part(#[trigger] parts[i]),
        parts[0] != "github.com"@,
    ensures
        without_host(host + text::joined(parts, seq!['/'])) == text::joined(parts, seq!['/']),
{
    let s = text::joined(parts, seq!['/']);
    let hs = host + s;
    reveal_strlit("");
    reveal_strlit("https://github.com/");
    reveal_strlit("http://github.com/");
    reveal_strlit("github.com/");
    if host.len() == 0 {
        assert(hs =~= s);
        lemma_no_prefix(parts, "https://github.com/"@);
        lemma_no_prefix(parts, "http://github.com/"@);
        lemma_no_prefix(parts, "github.com/"@);
    } else {
        assert(hs.subrange(0, host.len() as int) =~= host);
        assert(hs.skip(host.len() as int) =~= s);
        if host != "https://github.com/"@ && text::starts(hs, "https://github.com/"@) {
            assert(hs.subrange(0, 19)[4] == 's');
            assert(hs[4] == host[4]);
        }
        if host == "github.com/"@ && text::starts(hs, "http://github.com/"@) {
            assert(hs.subrange(0, 18)[0] == 'h');
            assert(hs[0] == host[0]);
        }
    }
}

/// The parts of an address, and what they say.
#[verifier::rlimit(40)]
proof fn lemma_address_parts(parts: Seq<Seq<char>>)
    requires
        parts.len() >= 2,
        forall|i: int| 0 <= i < parts.len() ==> is_address_part(#[trigger] parts[i]),
    ensures
        text::filled_parts(text::joined(parts, seq!['/']), slash()) == parts,
        !text::has_part(parts[0], ".."@),
        !text::has_part(parts[1], ".."@),
        !is_foreign(parts[0]),
        !is_foreign(parts[1]),
        "/"@ == seq!['/'],
        path_fault(parts.skip(2), text::joined(parts.skip(2), seq!['/']), 0) is None,
{
    reveal_strlit("/");
    assert forall|i: int, k: int| 0 <= i < parts.len() && 0 <= k < parts[i].len() implies !slash()(
        #[trigger] parts[i][k],
    ) by {
        assert(is_address_part(parts[i]));
        lemma_not_foreign(parts[i]);
    }
    text::law_parts_read_back(parts, '/', slash());
    assert forall|i: int| 0 <= i < parts.len() implies (|t: Seq<char>| t.len() > 0)(
        #[trigger] parts[i],
    ) by {
        assert(is_address_part(parts[i]));
    }
    text::lemma_filter_all(parts, |t: Seq<char>| t.len() > 0);
    assert(is_address_part(parts[0]));
    assert(is_address_part(parts[1]));
    lemma_not_foreign(parts[0]);
    lemma_not_foreign(parts[1]);
    let rest = parts.skip(2);
    assert("/"@ =~= seq!['/']);
    assert forall|i: int| 0 <= i < rest.len() implies is_address_part(#[trigger] rest[i]) by {
        assert(rest[i] == parts[i + 2]);
    }
    lemma_no_fault(rest, text::joined(rest, seq!['/']), 0);
}

proof fn lemma_end_of_tail(host: Seq<char>, s: Seq<char>, m: int)
    requires
        0 < m < s.len(),
        s[s.len() - m - 1] == '/',
        !text::ends(s, ".git"@),
        !text::ends(s, "/"@),
    ensures
        !text::ends(host + s, ".git"@),
        !text::ends(host + s, "/"@),
{
    let hs = host + s;
    let n = hs.len() as int;
    let k = s.len() as int;
    reveal_strlit(".git");
    reveal_strlit("/");
    if text::ends(hs, ".git"@) {
        assert(hs.subrange(n - 4, n) == ".git"@);
        if k >= 4 {
            assert(s.subrange(k - 4, k) =~= hs.subrange(n - 4, n));
            assert(text::ends(s, ".git"@));
        } else {
            assert(hs.subrange(n - 4, n)[4 - m - 1] == hs[n - m - 1]);
            assert(hs[n - m - 1] == s[k - m - 1]);
        }
    }
    if text::ends(hs, "/"@) {
        assert(hs.subrange(n - 1, n)[0] == s[k - 1]);
        assert(s.subrange(k - 1, k) =~= "/"@);
        assert(text::ends(s, "/"@));
    }
}

/// A name of letters, digits, dashes and underscores that is tidy and not too long is
/// taken, in lower case and otherwise as it is.
pub proof fn law_tidy_name_is_taken(name: Seq<char>)
    requires
        is_tidy(name),
        name.len() <= 64,
        forall|i: int|
            0 <= i < name.len() ==> text::is_ascii_word(#[trigger] name[i]) || name[i] == '-'
                || name[i] == '_',
    ensures
        sanitized(name) == Ok::<Seq<char>, Seq<char>>(text::ascii_lowered(name)),
{
    let none = Seq::<char>::empty();
    assert(text::is_ascii_word(name[0]) || name[0] == '-' || name[0] == '_');
    let l = name.len() - 1;
    assert(text::is_ascii_word(name[l]) || name[l] == '-' || name[l] == '_');
    text::law_trim_takes_whitespace(none, name, none);
    assert(none + name + none =~= name);
    assert(!leads_elsewhere(name)) by {
        reveal_strlit("..");
        reveal_strlit("/");
        reveal_strlit("\\");
        if text::has_part(name, ".."@) {
            let i = choose|i: int| text::at(name, ".."@, i);
            assert(name.subrange(i, i + 2)[0] == name[i]);
        }
        if text::has_part(name, "/"@) {
            let i = choose|i: int| text::at(name, "/"@, i);
            assert(name.subrange(i, i + 1)[0] == name[i]);
        }
        if text::has_part(name, "\\"@) {
            let i = choose|i: int| text::at(name, "\\"@, i);
            assert(name.subrange(i, i + 1)[0] == name[i]);
        }
    }
    lemma_word_chars_are_lowered(name, name.len() as int);
    assert(name.take(name.len() as int) =~= name);
    let low = text::ascii_lowered(name);
    assert(low.len() == name.len());
    assert forall|i: int| 0 <= i < low.len() implies (#[trigger] low[i] == '-') == (name[i] == '-') by {}
    assert forall|i: int| 0 <= i < low.len() - 1 implies #[trigger] low[i] != '-' || low[i + 1] != '-' by {
        assert(name[i] != '-' || name[i + 1] != '-');
    }
    assert(is_tidy(low));
    lemma_tidy_stays(low);
}

proof fn lemma_word_chars_are_lowered(s: Seq<char>, n: int)
    requires
        0 <= n <= s.len(),
        forall|i: int|
            0 <= i < s.len() ==> text::is_ascii_word(#[trigger] s[i]) || s[i] == '-' || s[i] == '_',
    ensures
        name_chars(s, n) == text::ascii_lowered(s.take(n)),
    decreases n,
{
    if n > 0 {
        lemma_word_chars_are_lowered(s, n - 1);
        let c = s[n - 1];
        assert(text::is_ascii_word(c) || c == '-' || c == '_');
        assert(text::ascii_lowered(s.take(n)) =~= text::ascii_lowered(s.take(n - 1)) + seq![
            text::ascii_lower(c),
        ]);
    } else {
        assert(name_chars(s, n) =~= text::ascii_lowered(s.take(n)));
    }
}

/// An empty text is no address.
pub proof fn lemma_nothing_is_no_address(s: Seq<char>)
    ensures
        s.len() == 0 ==> github_spec(s) is Err,
{
    if s.len() == 0 {
        reveal_strlit(".git");
        reveal_strlit("/");
        reveal_strlit("https://github.com/");
        reveal_strlit("http://github.com/");
        reveal_strlit("github.com/");
        reveal(Seq::filter);
        assert(text::trim_of(s) =~= s);
        assert(bare_spec(s) =~= s);
        let parts = text::parts_of(s, slash());
        assert(parts.len() == 1);
        assert(parts.drop_last() =~= Seq::<Seq<char>>::empty());
    }
}

} // verus!
