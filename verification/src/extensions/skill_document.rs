//! Writing a skill.

use crate::extensions::frontmatter;
use crate::extensions::frontmatter::yaml_quote;
use crate::extensions::naming;
use crate::extensions::naming::sanitize_skill_name;
use crate::extensions::skills;
use crate::extensions::triggers;
use crate::extensions::triggers::extract_triggers;
use crate::text;
use crate::text::{
    cat2, cat3, chars_of, join, same, skip_while, str_contains, str_starts_with, text_of, trim,
    trimmed,
};
use vstd::prelude::*;
use vstd::string::*;

verus! {

// ── The file ────────────────────────────────────────────────────────────────

/// The content of a `SKILL.md`.
pub open spec fn document(
    name: Seq<char>,
    description: Seq<char>,
    triggers: Seq<char>,
    body: Seq<char>,
) -> Seq<char> {
    "---\nname: "@ + frontmatter::quoted(name) + "\ndescription: "@ + frontmatter::quoted(
        description,
    ) + "\ntriggers: "@ + frontmatter::quoted(triggers) + "\nhidden: false\n---\n\n"@ + body
        + "\n"@
}

/// The content of a `SKILL.md`.
pub fn skill_document(name: &str, description: &str, triggers: &str, body: &str) -> (r: String)
    ensures
        r@ == document(name@, description@, triggers@, body@),
{
    cat3("---\nname: ", yaml_quote(name).as_str(), "\ndescription: ").concat(
        yaml_quote(description).as_str(),
    ).concat("\ntriggers: ").concat(yaml_quote(triggers).as_str()).concat(
        "\nhidden: false\n---\n\n",
    ).concat(body).concat("\n")
}

/// The triggers of a new skill on one line: those that were given, else those that
/// the description gives.
pub open spec fn triggers_line(given: Seq<Seq<char>>, from_description: Seq<Seq<char>>) -> Seq<char> {
    if given.len() == 0 {
        text::joined(from_description, ", "@)
    } else {
        text::joined(skills::trimmed_parts(given, given.len() as int), ", "@)
    }
}

/// Whether one of the first `n` paths is below `scripts/`.
pub open spec fn has_scripts(paths: Seq<Seq<char>>) -> bool {
    exists|i: int| 0 <= i < paths.len() && text::starts(#[trigger] paths[i], "scripts/"@)
}

/// What is added to the body of a skill that comes with scripts and does not speak
/// of them.
pub open spec fn layout_note() -> Seq<char> {
    "\n\n## Package layout\nThis skill may include files under `scripts/`, `references/`, and `assets/`. When active, absolute paths are listed — run scripts with `do_bash` and read references with `do_file_read`.\n"@
}

/// The body of a new skill.
pub open spec fn body_text(body: Seq<char>, paths: Seq<Seq<char>>) -> Seq<char> {
    let t = text::trim_of(body);
    if has_scripts(paths) && !text::has_part(t, "scripts/"@) {
        t + layout_note()
    } else {
        t
    }
}

// ── The files beside it ─────────────────────────────────────────────────────

/// A character with a slash for a backslash.
pub open spec fn forward(c: char) -> char {
    if c == '\\' {
        '/'
    } else {
        c
    }
}

/// A path below a skill: trimmed, without slashes at its start, and with slashes
/// for backslashes.
pub open spec fn relative(path: Seq<char>) -> Seq<char> {
    text::skipped(text::trim_of(path), naming::slash()).map_values(|c: char| forward(c))
}

/// Whether a path lies in one of the directories for files of a skill.
pub open spec fn in_package_dir(rel: Seq<char>) -> bool {
    text::starts(rel, "scripts/"@) || text::starts(rel, "references/"@) || text::starts(
        rel,
        "assets/"@,
    )
}

/// What is wrong with the path of a file of a new skill.
pub open spec fn file_fault(rel: Seq<char>) -> Option<Seq<char>> {
    if rel.len() == 0 || text::has_part(rel, ".."@) {
        Some("非法文件路径: "@ + rel)
    } else if in_package_dir(rel) || (!text::has_part(rel, "/"@) && rel != "SKILL.md"@) {
        None
    } else {
        Some("文件必须放在 scripts/、references/ 或 assets/ 下: "@ + rel)
    }
}

fn is_slash(c: char) -> (b: bool)
    ensures
        b == naming::slash()(c),
{
    c == '/'
}

fn relative_path(path: &str) -> (r: String)
    ensures
        r@ == relative(path@),
{
    let all = chars_of(path);
    let t = skip_while(trim(all.as_slice()), is_slash, Ghost(naming::slash()));
    let n: usize = t.len();
    let ghost target = t@.map_values(|c: char| forward(c));
    let mut r: Vec<char> = Vec::new();
    for i in 0..n
        invariant
            n == t@.len(),
            target == t@.map_values(|c: char| forward(c)),
            r@ == target.take(i as int),
    {
        let c = if t[i] == '\\' {
            '/'
        } else {
            t[i]
        };
        assert(target.take(i + 1) =~= target.take(i as int).push(target[i as int]));
        r.push(c);
    }
    assert(target.take(n as int) =~= target);
    text_of(r.as_slice())
}

fn package_dir(rel: &str) -> (b: bool)
    ensures
        b == in_package_dir(rel@),
{
    str_starts_with(rel, "scripts/") || str_starts_with(rel, "references/") || str_starts_with(
        rel,
        "assets/",
    )
}

/// A file to write beside a `SKILL.md`.
#[derive(Debug)]
pub struct PlannedFile {
    /// Its path below the directory of the skill.
    pub relative_path: String,
    pub content: String,
    /// Whether it is to be made executable.
    pub executable: bool,
}

/// A file to write, as a value.
#[verifier::ext_equal]
pub struct PlannedView {
    pub relative_path: Seq<char>,
    pub content: Seq<char>,
    pub executable: bool,
}

impl View for PlannedFile {
    type V = PlannedView;

    open spec fn view(&self) -> PlannedView {
        PlannedView {
            relative_path: self.relative_path@,
            content: self.content@,
            executable: self.executable,
        }
    }
}

/// The values of the files to write.
pub open spec fn planned_views(v: Seq<PlannedFile>) -> Seq<PlannedView> {
    v.map_values(|f: PlannedFile| f@)
}

/// The values of files that were given.
pub open spec fn given_views(v: Seq<(String, String)>) -> Seq<(Seq<char>, Seq<char>)> {
    v.map_values(|f: (String, String)| (f.0@, f.1@))
}

/// The paths of files that were given.
pub open spec fn given_paths(s: Seq<(Seq<char>, Seq<char>)>) -> Seq<Seq<char>> {
    s.map_values(|f: (Seq<char>, Seq<char>)| f.0)
}

/// A file to write for one that was given.
pub open spec fn planned(f: (Seq<char>, Seq<char>)) -> PlannedView {
    PlannedView {
        relative_path: relative(f.0),
        content: f.1,
        executable: text::starts(relative(f.0), "scripts/"@),
    }
}

/// How many files come before the first that cannot be written, from `k` on.
pub open spec fn sound_files(s: Seq<(Seq<char>, Seq<char>)>, k: int) -> int
    decreases s.len() - k,
{
    if 0 <= k < s.len() && file_fault(relative(s[k].0)) is None {
        sound_files(s, k + 1)
    } else {
        k
    }
}

/// What to write for a new skill: the `SKILL.md`, then the files in order; `error`
/// is what to report after them.
#[derive(Debug)]
pub struct SavePlan {
    /// The name of its directory.
    pub dir_name: String,
    pub content: String,
    pub files: Vec<PlannedFile>,
    pub error: Option<String>,
}

/// What to write for a new skill, as a value.
#[verifier::ext_equal]
pub struct SavePlanView {
    pub dir_name: Seq<char>,
    pub content: Seq<char>,
    pub files: Seq<PlannedView>,
    pub error: Option<Seq<char>>,
}

impl View for SavePlan {
    type V = SavePlanView;

    open spec fn view(&self) -> SavePlanView {
        SavePlanView {
            dir_name: self.dir_name@,
            content: self.content@,
            files: planned_views(self.files@),
            error: text::opt_text(self.error),
        }
    }
}

/// What to write for a new skill whose directory is `name`, given the triggers on
/// one line.
pub open spec fn save_plan(
    name: Seq<char>,
    description: Seq<char>,
    line: Seq<char>,
    body: Seq<char>,
    files: Seq<(Seq<char>, Seq<char>)>,
) -> SavePlanView {
    let n = sound_files(files, 0);
    SavePlanView {
        dir_name: name,
        content: document(name, description, line, body_text(body, given_paths(files))),
        files: files.take(n).map_values(|f: (Seq<char>, Seq<char>)| planned(f)),
        error: if n < files.len() {
            file_fault(relative(files[n].0))
        } else {
            None
        },
    }
}

fn check_file(rel: &str) -> (r: Option<String>)
    ensures
        text::opt_text(r) == file_fault(rel@),
{
    if rel.is_empty() || str_contains(rel, "..") {
        return Some(cat2("非法文件路径: ", rel));
    }
    if package_dir(rel) || (!str_contains(rel, "/") && !same(rel, "SKILL.md")) {
        return None;
    }
    Some(cat2("文件必须放在 scripts/、references/ 或 assets/ 下: ", rel))
}

fn triggers_on_one_line(given: &Vec<String>, description: &str) -> (r: String)
    ensures
        r@ == triggers_line(text::texts(given@), triggers::triggers_of(description@)),
{
    let ghost s = text::texts(given@);
    let n: usize = given.len();
    if n == 0 {
        return join(&extract_triggers(description), ", ");
    }
    let mut parts: Vec<String> = Vec::new();
    assert(text::texts(parts@) =~= skills::trimmed_parts(s, 0));
    for i in 0..n
        invariant
            n == given@.len(),
            s == text::texts(given@),
            text::texts(parts@) == skills::trimmed_parts(s, i as int),
    {
        assert(s[i as int] == given@[i as int]@);
        let t = trimmed(given[i].as_str());
        if !t.as_str().is_empty() {
            proof {
                text::lemma_texts_push(parts@, t);
            }
            parts.push(t);
        }
    }
    join(&parts, ", ")
}

/// Plans a new skill whose directory is `name`, given the triggers on one line.
pub fn plan_skill(
    name: String,
    description: &str,
    line: &str,
    body: &str,
    files: &Vec<(String, String)>,
) -> (r: SavePlan)
    ensures
        r@ == save_plan(name@, description@, line@, body@, given_views(files@)),
{
    let ghost s = given_views(files@);
    let ghost paths = given_paths(s);
    let n: usize = files.len();
    let mut scripts = false;
    for i in 0..n
        invariant
            n == files@.len(),
            s == given_views(files@),
            paths == given_paths(s),
            scripts == (exists|k: int|
                0 <= k < i && text::starts(#[trigger] paths[k], "scripts/"@)),
    {
        assert(paths[i as int] == files@[i as int].0@);
        if str_starts_with(files[i].0.as_str(), "scripts/") {
            scripts = true;
        }
    }
    assert(scripts == has_scripts(paths));
    let mut told = trimmed(body);
    if scripts && !str_contains(told.as_str(), "scripts/") {
        told.append(
            "\n\n## Package layout\nThis skill may include files under `scripts/`, `references/`, and `assets/`. When active, absolute paths are listed — run scripts with `do_bash` and read references with `do_file_read`.\n",
        );
    }
    let content = skill_document(name.as_str(), description, line, told.as_str());
    let mut out: Vec<PlannedFile> = Vec::new();
    let mut error: Option<String> = None;
    let mut k: usize = 0;
    let ghost f = |f: (Seq<char>, Seq<char>)| planned(f);
    assert(planned_views(out@) =~= s.take(0).map_values(f));
    while k < n && error.is_none()
        invariant
            k <= n == files@.len(),
            s == given_views(files@),
            f == |f: (Seq<char>, Seq<char>)| planned(f),
            planned_views(out@) == s.take(k as int).map_values(f),
            error is None ==> sound_files(s, 0) == sound_files(s, k as int),
            error is Some ==> sound_files(s, 0) == k && k < n && text::opt_text(error)
                == file_fault(relative(s[k as int].0)),
        decreases
            n - k,
            if error is None {
                1int
            } else {
                0
            },
    {
        assert(s[k as int] == (files@[k as int].0@, files@[k as int].1@));
        let rel = relative_path(files[k].0.as_str());
        let fault = check_file(rel.as_str());
        if fault.is_some() {
            error = fault;
        } else {
            let executable = str_starts_with(rel.as_str(), "scripts/");
            let file = PlannedFile {
                relative_path: rel,
                content: files[k].1.clone(),
                executable,
            };
            proof {
                assert(file@ =~= planned(s[k as int]));
                assert(planned_views(out@.push(file)) =~= planned_views(out@).push(file@));
                assert(s.take(k + 1).map_values(f) =~= s.take(k as int).map_values(f).push(
                    planned(s[k as int]),
                ));
            }
            out.push(file);
            k = k + 1;
        }
    }
    proof {
        if error is None {
            assert(sound_files(s, n as int) == n);
        }
        assert(k == sound_files(s, 0));
    }
    SavePlan { dir_name: name, content, files: out, error }
}

/// Plans a new skill.
pub fn save_skill(
    name: &str,
    description: &str,
    body: &str,
    triggers: &Vec<String>,
    files: &Vec<(String, String)>,
) -> (r: Result<SavePlan, String>)
    ensures
        match naming::sanitized(name@) {
            Ok(dir) => r matches Ok(p) && p@ == save_plan(
                dir,
                description@,
                triggers_line(text::texts(triggers@), triggers::triggers_of(description@)),
                body@,
                given_views(files@),
            ),
            Err(e) => r matches Err(m) && m@ == e,
        },
{
    match sanitize_skill_name(name) {
        Ok(dir) => {
            let line = triggers_on_one_line(triggers, description);
            Ok(plan_skill(dir, description, line.as_str(), body, files))
        },
        Err(e) => Err(e),
    }
}

/// What is wrong with the path of a file that is added to a skill.
pub open spec fn added_fault(rel: Seq<char>) -> Option<Seq<char>> {
    if rel.len() == 0 || text::has_part(rel, ".."@) || rel == "SKILL.md"@ {
        Some("非法 relative_path"@)
    } else if !in_package_dir(rel) {
        Some("文件必须在 scripts/、references/ 或 assets/ 下"@)
    } else {
        None
    }
}

/// Where a file that is added to a skill goes: the directory of the skill and the
/// path below it. It is to be made executable where it is a script.
pub fn write_skill_file(skill_name: &str, relative_path_text: &str, content: &str) -> (r: Result<
    (String, PlannedFile),
    String,
>)
    ensures
        match naming::sanitized(skill_name@) {
            Ok(dir) => match added_fault(relative(relative_path_text@)) {
                Some(e) => r matches Err(m) && m@ == e,
                None => r matches Ok(p) && p.0@ == dir && p.1@ == planned(
                    (relative_path_text@, content@),
                ),
            },
            Err(e) => r matches Err(m) && m@ == e,
        },
{
    let dir = match sanitize_skill_name(skill_name) {
        Ok(dir) => dir,
        Err(e) => return Err(e),
    };
    let rel = relative_path(relative_path_text);
    if rel.as_str().is_empty() || str_contains(rel.as_str(), "..") || same(
        rel.as_str(),
        "SKILL.md",
    ) {
        return Err("非法 relative_path".to_string());
    }
    if !package_dir(rel.as_str()) {
        return Err("文件必须在 scripts/、references/ 或 assets/ 下".to_string());
    }
    let executable = str_starts_with(rel.as_str(), "scripts/");
    Ok((dir, PlannedFile { relative_path: rel, content: content.to_string(), executable }))
}

// ── Laws ────────────────────────────────────────────────────────────────────

/// A file of a skill never leaves its directory and never replaces its `SKILL.md`:
/// its path is not empty, never goes up, and does not start at the root.
pub proof fn law_files_stay_inside(rel: Seq<char>)
    requires
        file_fault(rel) is None || added_fault(rel) is None,
    ensures
        rel.len() > 0,
        !text::has_part(rel, ".."@),
        rel != "SKILL.md"@,
        rel[0] != '/',
{
    reveal_strlit("scripts/");
    reveal_strlit("references/");
    reveal_strlit("assets/");
    reveal_strlit("SKILL.md");
    reveal_strlit("/");
    if text::starts(rel, "scripts/"@) {
        lemma_starts_at(rel, "scripts/"@, 0);
        lemma_starts_at(rel, "scripts/"@, 7);
    } else if text::starts(rel, "references/"@) {
        lemma_starts_at(rel, "references/"@, 0);
        lemma_starts_at(rel, "references/"@, 10);
    } else if text::starts(rel, "assets/"@) {
        lemma_starts_at(rel, "assets/"@, 0);
        lemma_starts_at(rel, "assets/"@, 6);
    } else if rel[0] == '/' {
        assert(rel.subrange(0, 1) =~= "/"@);
        assert(text::at(rel, "/"@, 0));
    }
}

proof fn lemma_starts_at(s: Seq<char>, p: Seq<char>, i: int)
    requires
        text::starts(s, p),
        0 <= i < p.len(),
    ensures
        p.len() <= s.len(),
        s[i] == p[i],
{
    assert(s.subrange(0, p.len() as int)[i] == s[i]);
}

/// Whether a text holds no line feed.
pub open spec fn one_line(s: Seq<char>) -> bool {
    forall|i: int| 0 <= i < s.len() ==> #[trigger] s[i] != '\n'
}

proof fn lemma_line_end_shift(s: Seq<char>, k: int, from: int)
    requires
        0 <= k <= from <= s.len(),
    ensures
        text::line_end(s, from) == k + text::line_end(s.skip(k), from - k),
    decreases s.len() - from,
{
    if from < s.len() {
        assert(s.skip(k)[from - k] == s[from]);
        if s[from] != '\n' {
            lemma_line_end_shift(s, k, from + 1);
        }
    }
}

proof fn lemma_line_end_of(line: Seq<char>, rest: Seq<char>, k: int)
    requires
        one_line(line),
        0 <= k <= line.len(),
    ensures
        text::line_end(line + seq!['\n'] + rest, k) == line.len(),
    decreases line.len() - k,
{
    let s = line + seq!['\n'] + rest;
    if k < line.len() {
        assert(s[k] == line[k]);
        lemma_line_end_of(line, rest, k + 1);
    } else {
        assert(s[k] == '\n');
    }
}

/// The closing line of a text is that of any rest of it that starts before.
proof fn lemma_closing_shift(s: Seq<char>, k: int, from: int)
    requires
        0 <= k <= from <= s.len(),
    ensures
        frontmatter::closing_from(s, from) == (match frontmatter::closing_from(
            s.skip(k),
            from - k,
        ) {
            Some(p) => Some((p.0 + k, p.1 + k)),
            None => None,
        }),
    decreases s.len() - from,
{
    if from < s.len() {
        lemma_line_end_shift(s, k, from);
        text::lemma_line_end(s, from);
        let end = text::line_end(s, from);
        let next = if end < s.len() {
            end + 1
        } else {
            end
        };
        assert(s.skip(k).subrange(from - k, end - k) =~= s.subrange(from, end));
        lemma_closing_shift(s, k, next);
    }
}

/// A line that is not the closing one is passed over.
proof fn lemma_closing_step(line: Seq<char>, rest: Seq<char>)
    requires
        one_line(line),
        text::trim_of(line) != "---"@,
    ensures
        frontmatter::closing_from(line + seq!['\n'] + rest, 0) == (match frontmatter::closing_from(
            rest,
            0,
        ) {
            Some(p) => Some((p.0 + line.len() + 1, p.1 + line.len() + 1)),
            None => None,
        }),
{
    let s = line + seq!['\n'] + rest;
    lemma_line_end_of(line, rest, 0);
    assert(s.subrange(0, line.len() as int) =~= line);
    let k = line.len() as int + 1;
    lemma_closing_shift(s, k, k);
    assert(s.skip(k) =~= rest);
}

proof fn lemma_lines_shift(s: Seq<char>, k: int, from: int)
    requires
        0 <= k <= from <= s.len(),
    ensures
        text::lines_from(s, from) == text::lines_from(s.skip(k), from - k),
    decreases s.len() - from,
{
    if from < s.len() {
        lemma_line_end_shift(s, k, from);
        text::lemma_line_end(s, from);
        let end = text::line_end(s, from);
        if end < s.len() {
            assert(s.skip(k).subrange(from - k, end - k) =~= s.subrange(from, end));
            lemma_lines_shift(s, k, end + 1);
        } else {
            assert(s.skip(k).subrange(from - k, s.skip(k).len() as int) =~= s.subrange(
                from,
                s.len() as int,
            ));
        }
    }
}

proof fn lemma_lines_step(line: Seq<char>, rest: Seq<char>)
    requires
        one_line(line),
        line.len() > 0,
        line.last() != '\r',
    ensures
        text::lines_of(line + seq!['\n'] + rest) == seq![line] + text::lines_of(rest),
{
    let s = line + seq!['\n'] + rest;
    lemma_line_end_of(line, rest, 0);
    assert(s.subrange(0, line.len() as int) =~= line);
    let k = line.len() as int + 1;
    lemma_lines_shift(s, k, k);
    assert(s.skip(k) =~= rest);
}

/// A key and a value that a header can hold on one line as they are.
pub open spec fn plain_pair(key: Seq<char>, value: Seq<char>) -> bool {
    &&& key.len() > 0
    &&& frontmatter::starts_key(key[0])
    &&& forall|i: int| 0 <= i < key.len() ==> frontmatter::is_key_char(#[trigger] key[i])
    &&& value.len() > 1
    &&& !text::is_ws(value[0])
    &&& !text::is_ws(value.last())
    &&& value.last() != '-'
    &&& value.last() != '+'
    &&& one_line(value)
}

/// The line of a key and a value.
pub open spec fn pair_line(key: Seq<char>, value: Seq<char>) -> Seq<char> {
    key + seq![':', ' '] + value
}

proof fn lemma_pair_line(key: Seq<char>, value: Seq<char>)
    requires
        plain_pair(key, value),
    ensures
        text::trim_of(pair_line(key, value)) == pair_line(key, value),
        frontmatter::is_pair(pair_line(key, value)),
        frontmatter::key_in(pair_line(key, value)) == key,
        frontmatter::value_in(pair_line(key, value)) == value,
        frontmatter::block_sign(value) == value,
        one_line(pair_line(key, value)),
        pair_line(key, value).last() == value.last(),
        pair_line(key, value) != "---"@,
{
    let line = pair_line(key, value);
    reveal_strlit(":");
    reveal_strlit("---");
    assert(line[0] == key[0]);
    assert(line.last() == value.last());
    frontmatter::lemma_trim_of_tight(line);
    frontmatter::lemma_trim_of_tight(key);
    frontmatter::lemma_trim_of_tight(value);
    text::lemma_first_at(line, ":"@);
    let p = text::first_at(line, ":"@);
    let k = key.len() as int;
    assert(line.subrange(k, k + 1) =~= ":"@);
    assert(text::at(line, ":"@, k));
    assert(p >= 0);
    assert(p == k) by {
        if p < k {
            assert(line.subrange(p, p + 1)[0] == ':');
            assert(line[p] == key[p]);
        }
        assert(p <= k);
    }
    assert forall|i: int| 0 <= i < p implies frontmatter::is_key_char(#[trigger] line[i]) by {
        assert(line[i] == key[i]);
    }
    assert(line.take(p) =~= key);
    let tail = line.skip(p + 1);
    assert(tail =~= seq![' '] + value);
    assert(text::trim_of(tail) == value) by {
        assert(tail[0] == ' ');
        assert(tail.skip(1) =~= value);
        assert(tail.drop_first() =~= value);
    }
    assert forall|i: int| 0 <= i < line.len() implies #[trigger] line[i] != '\n' by {
        if i < k {
            assert(line[i] == key[i]);
        } else if i >= k + 2 {
            assert(line[i] == value[i - k - 2]);
        }
    }
    assert(line[0] != '-');
}

/// A header of one line more holds one field more.
proof fn lemma_field_step(lines: Seq<Seq<char>>, i: int, key: Seq<char>, value: Seq<char>)
    requires
        0 <= i < lines.len(),
        lines[i] == pair_line(key, value),
        plain_pair(key, value),
    ensures
        frontmatter::fields_from(lines, i) == seq![frontmatter::FieldView { key, value }]
            + frontmatter::fields_from(lines, i + 1),
{
    lemma_pair_line(key, value);
    reveal_strlit("|");
    reveal_strlit(">");
}

proof fn lemma_escaped_plain(s: Seq<char>)
    ensures
        one_line(frontmatter::escaped(s)),
        !frontmatter::escaped(s).contains('\r'),
    decreases s.len(),
{
    if s.len() > 0 {
        lemma_escaped_plain(s.skip(1));
        let a = frontmatter::escape_char(s[0]);
        let b = frontmatter::escaped(s.skip(1));
        let e = frontmatter::escaped(s);
        assert forall|i: int| 0 <= i < e.len() implies #[trigger] e[i] != '\n' && e[i] != '\r' by {
            if i >= a.len() {
                assert(e[i] == b[i - a.len()]);
                assert(b.contains(b[i - a.len()]));
            }
        }
    }
}

proof fn lemma_quoted_pair(key: Seq<char>, s: Seq<char>)
    requires
        key.len() > 0,
        frontmatter::starts_key(key[0]),
        forall|i: int| 0 <= i < key.len() ==> frontmatter::is_key_char(#[trigger] key[i]),
    ensures
        plain_pair(key, frontmatter::quoted(s)),
{
    lemma_escaped_plain(s);
    let q = frontmatter::quoted(s);
    let e = frontmatter::escaped(s);
    assert forall|i: int| 0 <= i < q.len() implies #[trigger] q[i] != '\n' by {
        if 0 < i < q.len() - 1 {
            assert(q[i] == e[i - 1]);
        }
    }
}

/// The header of a written skill, and what stands behind it.
pub open spec fn written_fields(
    name: Seq<char>,
    description: Seq<char>,
    triggers: Seq<char>,
) -> Seq<frontmatter::FieldView> {
    seq![
        frontmatter::FieldView { key: "name"@, value: frontmatter::quoted(name) },
        frontmatter::FieldView { key: "description"@, value: frontmatter::quoted(description) },
        frontmatter::FieldView { key: "triggers"@, value: frontmatter::quoted(triggers) },
        frontmatter::FieldView { key: "hidden"@, value: "false"@ },
    ]
}

proof fn lemma_written_keys(name: Seq<char>, description: Seq<char>, triggers: Seq<char>)
    ensures
        plain_pair("name"@, frontmatter::quoted(name)),
        plain_pair("description"@, frontmatter::quoted(description)),
        plain_pair("triggers"@, frontmatter::quoted(triggers)),
        plain_pair("hidden"@, "false"@),
{
    reveal_strlit("name");
    reveal_strlit("description");
    reveal_strlit("triggers");
    reveal_strlit("hidden");
    reveal_strlit("false");
    lemma_quoted_pair("name"@, name);
    lemma_quoted_pair("description"@, description);
    lemma_quoted_pair("triggers"@, triggers);
}

/// The lines of a header, one behind another.
pub open spec fn header_text(
    name: Seq<char>,
    description: Seq<char>,
    triggers: Seq<char>,
    rest: Seq<char>,
) -> Seq<char> {
    pair_line("name"@, frontmatter::quoted(name)) + seq!['\n'] + (pair_line(
        "description"@,
        frontmatter::quoted(description),
    ) + seq!['\n'] + (pair_line("triggers"@, frontmatter::quoted(triggers)) + seq!['\n'] + (
    pair_line("hidden"@, "false"@) + seq!['\n'] + rest)))
}

proof fn lemma_document_shape(
    name: Seq<char>,
    description: Seq<char>,
    triggers: Seq<char>,
    body: Seq<char>,
)
    ensures
        document(name, description, triggers, body) == "---\n"@ + header_text(
            name,
            description,
            triggers,
            "---\n\n"@ + body + "\n"@,
        ),
{
    reveal_strlit("---\nname: ");
    reveal_strlit("\ndescription: ");
    reveal_strlit("\ntriggers: ");
    reveal_strlit("\nhidden: false\n---\n\n");
    reveal_strlit("\n");
    reveal_strlit("---\n");
    reveal_strlit("---\n\n");
    reveal_strlit("name");
    reveal_strlit("description");
    reveal_strlit("triggers");
    reveal_strlit("hidden");
    reveal_strlit("false");
    let q1 = frontmatter::quoted(name);
    let q2 = frontmatter::quoted(description);
    let q3 = frontmatter::quoted(triggers);
    let tail = "---\n\n"@ + body + "\n"@;
    assert("---\nname: "@ =~= "---\n"@ + ("name"@ + seq![':', ' ']));
    assert("\ndescription: "@ =~= seq!['\n'] + ("description"@ + seq![':', ' ']));
    assert("\ntriggers: "@ =~= seq!['\n'] + ("triggers"@ + seq![':', ' ']));
    assert("\nhidden: false\n---\n\n"@ =~= seq!['\n'] + ("hidden"@ + seq![':', ' '] + "false"@)
        + seq!['\n'] + "---\n\n"@);
    assert(document(name, description, triggers, body) =~= "---\n"@ + header_text(
        name,
        description,
        triggers,
        tail,
    ));
}

proof fn lemma_header_closing(
    name: Seq<char>,
    description: Seq<char>,
    triggers: Seq<char>,
    rest: Seq<char>,
)
    requires
        frontmatter::closing_from(rest, 0) == Some((0int, 4int)),
    ensures
        ({
            let s = header_text(name, description, triggers, rest);
            let k = s.len() - rest.len();
            frontmatter::closing_from(s, 0) == Some((k, k + 4))
        }),
{
    lemma_written_keys(name, description, triggers);
    let l1 = pair_line("name"@, frontmatter::quoted(name));
    let l2 = pair_line("description"@, frontmatter::quoted(description));
    let l3 = pair_line("triggers"@, frontmatter::quoted(triggers));
    let l4 = pair_line("hidden"@, "false"@);
    lemma_pair_line("name"@, frontmatter::quoted(name));
    lemma_pair_line("description"@, frontmatter::quoted(description));
    lemma_pair_line("triggers"@, frontmatter::quoted(triggers));
    lemma_pair_line("hidden"@, "false"@);
    let r4 = l4 + seq!['\n'] + rest;
    let r3 = l3 + seq!['\n'] + r4;
    let r2 = l2 + seq!['\n'] + r3;
    lemma_closing_step(l4, rest);
    lemma_closing_step(l3, r4);
    lemma_closing_step(l2, r3);
    lemma_closing_step(l1, r2);
}

proof fn lemma_header_lines(name: Seq<char>, description: Seq<char>, triggers: Seq<char>)
    ensures
        text::lines_of(header_text(name, description, triggers, Seq::empty())) == seq![
            pair_line("name"@, frontmatter::quoted(name)),
            pair_line("description"@, frontmatter::quoted(description)),
            pair_line("triggers"@, frontmatter::quoted(triggers)),
            pair_line("hidden"@, "false"@),
        ],
{
    lemma_written_keys(name, description, triggers);
    let l1 = pair_line("name"@, frontmatter::quoted(name));
    let l2 = pair_line("description"@, frontmatter::quoted(description));
    let l3 = pair_line("triggers"@, frontmatter::quoted(triggers));
    let l4 = pair_line("hidden"@, "false"@);
    lemma_pair_line("name"@, frontmatter::quoted(name));
    lemma_pair_line("description"@, frontmatter::quoted(description));
    lemma_pair_line("triggers"@, frontmatter::quoted(triggers));
    lemma_pair_line("hidden"@, "false"@);
    let none: Seq<char> = Seq::empty();
    let r4 = l4 + seq!['\n'] + none;
    let r3 = l3 + seq!['\n'] + r4;
    let r2 = l2 + seq!['\n'] + r3;
    lemma_lines_step(l4, none);
    lemma_lines_step(l3, r4);
    lemma_lines_step(l2, r3);
    lemma_lines_step(l1, r2);
    assert(text::lines_of(none) =~= Seq::empty());
    assert(text::lines_of(header_text(name, description, triggers, none)) =~= seq![l1, l2, l3, l4]);
}

proof fn lemma_header_fields(name: Seq<char>, description: Seq<char>, triggers: Seq<char>)
    ensures
        frontmatter::fields_from(
            text::lines_of(header_text(name, description, triggers, Seq::empty())),
            0,
        ) == written_fields(name, description, triggers),
{
    lemma_written_keys(name, description, triggers);
    lemma_header_lines(name, description, triggers);
    let lines = text::lines_of(header_text(name, description, triggers, Seq::empty()));
    lemma_field_step(lines, 0, "name"@, frontmatter::quoted(name));
    lemma_field_step(lines, 1, "description"@, frontmatter::quoted(description));
    lemma_field_step(lines, 2, "triggers"@, frontmatter::quoted(triggers));
    lemma_field_step(lines, 3, "hidden"@, "false"@);
    assert(frontmatter::fields_from(lines, 4) =~= Seq::empty());
    assert(frontmatter::fields_from(lines, 0) =~= written_fields(name, description, triggers));
}

/// A written skill file reads back as the fields that were written and the trimmed
/// body, whatever they hold.
pub proof fn law_document_reads_back(
    name: Seq<char>,
    description: Seq<char>,
    triggers: Seq<char>,
    body: Seq<char>,
)
    ensures
        frontmatter::file_of(document(name, description, triggers, body))
            == frontmatter::FileView::Parts(
            written_fields(name, description, triggers),
            text::trim_of("\n"@ + body + "\n"@),
        ),
{
    let s = document(name, description, triggers, body);
    let rest = "---\n\n"@ + body + "\n"@;
    let header = header_text(name, description, triggers, rest);
    lemma_document_shape(name, description, triggers, body);
    reveal_strlit("---\n");
    reveal_strlit("---");
    reveal_strlit("---\n\n");
    reveal_strlit("\n");
    assert(s[0] == '-');
    assert(frontmatter::without_mark(s) == s);
    assert(s.subrange(0, 3) =~= "---"@);
    let after = s.skip(3);
    assert(after[0] == '\n');
    assert(text::line_end(after, 0) == 0);
    assert(after.take(0) =~= Seq::empty());
    assert(frontmatter::opens_header(s));
    assert(frontmatter::behind_first_line(after) =~= header);
    assert(frontmatter::closing_from(rest, 0) == Some((0int, 4int))) by {
        let dashes = "---"@;
        let behind = "\n"@ + body + "\n"@;
        assert(rest =~= dashes + seq!['\n'] + behind);
        lemma_line_end_of(dashes, behind, 0);
        assert(rest.subrange(0, 3) =~= "---"@);
        frontmatter::lemma_trim_of_tight("---"@);
    }
    lemma_header_closing(name, description, triggers, rest);
    let k = header.len() - rest.len();
    let none: Seq<char> = Seq::empty();
    assert(header.take(k) =~= header_text(name, description, triggers, none));
    assert(header.skip(k + 4) =~= "\n"@ + body + "\n"@);
    lemma_header_fields(name, description, triggers);
}

/// A written skill reads back with the name, the description and the triggers that
/// were written, whatever they hold, and it is not hidden.
pub proof fn law_saved_fields_read_back(
    name: Seq<char>,
    description: Seq<char>,
    triggers: Seq<char>,
)
    requires
        name.len() > 0,
    ensures
        ({
            let fields = written_fields(name, description, triggers);
            &&& frontmatter::field_text(fields, "name"@) == Some(name)
            &&& skills::field_or_empty(fields, "description"@) == description
            &&& skills::field_or_empty(fields, "triggers"@) == triggers
            &&& !skills::says_hidden(frontmatter::field_text(fields, "hidden"@))
        }),
{
    let fields = written_fields(name, description, triggers);
    frontmatter::law_unquote_undoes_quote(name);
    frontmatter::law_unquote_undoes_quote(description);
    frontmatter::law_unquote_undoes_quote(triggers);
    reveal_strlit("name");
    reveal_strlit("description");
    reveal_strlit("triggers");
    reveal_strlit("hidden");
    reveal_strlit("false");
    reveal_strlit("true");
    reveal_strlit("yes");
    reveal_strlit("1");
    assert("name"@.len() != "description"@.len());
    assert("name"@.len() != "triggers"@.len());
    assert("name"@.len() != "hidden"@.len());
    assert("description"@.len() != "triggers"@.len());
    assert("description"@.len() != "hidden"@.len());
    assert("triggers"@.len() != "hidden"@.len());
    reveal_with_fuel(frontmatter::value_at, 5);
    frontmatter::lemma_trim_of_tight("false"@);
    assert(frontmatter::unquoted("false"@) == "false"@);
    assert("false"@[0] != "true"@[0]);
    assert("false"@[0] != "yes"@[0]);
    assert("false"@[0] != "1"@[0]);
    if description.len() == 0 {
        assert(description =~= Seq::empty());
    }
    if triggers.len() == 0 {
        assert(triggers =~= Seq::empty());
    }
}

/// A skill is saved with its whole body, at most with a note behind it.
pub proof fn law_body_is_saved_whole(body: Seq<char>, paths: Seq<Seq<char>>)
    ensures
        text::starts(body_text(body, paths), text::trim_of(body)),
        !has_scripts(paths) ==> body_text(body, paths) == text::trim_of(body),
{
    let none = Seq::<char>::empty();
    let t = text::trim_of(body);
    text::lemma_part_at(none, t, layout_note());
    assert(none + t + layout_note() =~= t + layout_note());
    text::lemma_part_at(none, t, none);
    assert(none + t + none =~= t);
}

proof fn lemma_sound_files(s: Seq<(Seq<char>, Seq<char>)>, k: int)
    requires
        0 <= k <= s.len(),
    ensures
        k <= sound_files(s, k) <= s.len(),
        forall|i: int|
            k <= i < sound_files(s, k) ==> file_fault(relative((#[trigger] s[i]).0)) is None,
        sound_files(s, k) < s.len() ==> file_fault(relative(s[sound_files(s, k)].0)) is Some,
    decreases s.len() - k,
{
    if k < s.len() && file_fault(relative(s[k].0)) is None {
        lemma_sound_files(s, k + 1);
    }
}

/// Every file is planned with its content, in order, up to the first that may not be
/// written; and there is an error exactly where there is such a file.
pub proof fn law_files_are_planned_up_to_the_first_fault(
    name: Seq<char>,
    description: Seq<char>,
    line: Seq<char>,
    body: Seq<char>,
    files: Seq<(Seq<char>, Seq<char>)>,
)
    ensures
        ({
            let plan = save_plan(name, description, line, body, files);
            let n = plan.files.len() as int;
            &&& plan.dir_name == name
            &&& n <= files.len()
            &&& plan.error is None <==> n == files.len()
            &&& forall|i: int|
                0 <= i < n ==> (#[trigger] plan.files[i]).content == files[i].1
                    && plan.files[i].relative_path == relative(files[i].0) && file_fault(
                    relative(files[i].0),
                ) is None
            &&& n < files.len() ==> plan.error == file_fault(relative(files[n].0))
            &&& (forall|i: int|
                0 <= i < files.len() ==> file_fault(relative((#[trigger] files[i]).0)) is None)
                ==> n == files.len()
        }),
{
    lemma_sound_files(files, 0);
    let plan = save_plan(name, description, line, body, files);
    let n = sound_files(files, 0);
    assert forall|i: int| 0 <= i < n implies (#[trigger] plan.files[i]).content == files[i].1
        && plan.files[i].relative_path == relative(files[i].0) && file_fault(
        relative(files[i].0),
    ) is None by {
        assert(files.take(n)[i] == files[i]);
    }
}

} // verus!
