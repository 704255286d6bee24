//! Deleting a skill.
//!
//! What is deleted must lie below a directory that skills are looked for in, must be
//! a skill, and must be the skill that was asked for. A skill that is a symbolic link
//! is unlinked and nothing else.

use crate::extensions::frontmatter;
use crate::extensions::frontmatter::parse_frontmatter_name;
use crate::extensions::paths;
use crate::extensions::paths::{has_parent_dir, same_path, PartView, PathPart};
use crate::extensions::skill_resources::{EntryKind, Visit};
use crate::extensions::skills::SkillLoader;
use crate::text;
use crate::text::{
    cat2, cat3, comes_before, decimal, join, lowercase, same, same_ignoring_case, str_contains,
    trimmed,
};
use vstd::prelude::*;
use vstd::string::*;

verus! {

// ── What is asked for ───────────────────────────────────────────────────────

/// The path of a skill that is to be deleted, and what is known of it.
#[derive(Debug)]
pub struct RootTarget {
    /// The path as it was given.
    pub text: String,
    pub parts: Vec<PathPart>,
    /// Whether the path with its directory resolved, but not its last part, is
    /// there.
    pub logical_present: bool,
    /// Whether the path as it was given is there.
    pub plain_present: bool,
    /// Whether the path lies below a directory that skills are looked for in.
    pub under_root: bool,
    /// The path for display.
    pub display: String,
}

/// What to delete.
#[derive(Debug, PartialEq, Eq)]
pub enum Deletion {
    /// The skill at the path that was given, with its directory resolved or as it
    /// was given.
    At { logical: bool },
    /// The skills of this name, which is given in lower case too.
    Named { name: String, needle: String },
}

/// What to delete, as a value.
#[verifier::ext_equal]
pub enum DeletionView {
    At { logical: bool },
    Named { name: Seq<char>, needle: Seq<char> },
}

impl View for Deletion {
    type V = DeletionView;

    open spec fn view(&self) -> DeletionView {
        match self {
            Deletion::At { logical } => DeletionView::At { logical: *logical },
            Deletion::Named { name, needle } => DeletionView::Named {
                name: name@,
                needle: needle@,
            },
        }
    }
}

/// What to delete for a path, or why nothing may be.
pub open spec fn deletion_at(t: RootTarget) -> Result<DeletionView, Seq<char>> {
    let path = text::trim_of(t.text@);
    if paths::goes_up(paths::path_view(t.parts@)) {
        Err("拒绝删除：路径不能包含 `..`\n"@ + path)
    } else if !t.logical_present && !t.plain_present {
        Err("Skill 路径不存在（可能已删除）: "@ + path)
    } else if !t.under_root {
        Err("拒绝删除：路径不在 Skills 搜索目录内\n"@ + t.display@)
    } else {
        Ok(DeletionView::At { logical: t.logical_present })
    }
}

/// What to delete for a name, trimmed, and perhaps a path, or why nothing may be.
pub open spec fn deletion(
    name: Seq<char>,
    needle: Seq<char>,
    root: Option<RootTarget>,
) -> Result<DeletionView, Seq<char>> {
    if name.len() == 0 || text::has_part(name, ".."@) {
        Err("非法 Skill 名称"@)
    } else {
        match root {
            Some(t) => if text::trim_of(t.text@).len() > 0 {
                deletion_at(t)
            } else {
                Ok(DeletionView::Named { name, needle })
            },
            None => Ok(DeletionView::Named { name, needle }),
        }
    }
}

/// The value of what to delete, or of why nothing may be.
pub open spec fn deletion_result(r: Result<Deletion, String>) -> Result<DeletionView, Seq<char>> {
    match r {
        Ok(d) => Ok(d@),
        Err(e) => Err(e@),
    }
}

fn delete_at(t: &RootTarget) -> (r: Result<Deletion, String>)
    ensures
        deletion_result(r) == deletion_at(*t),
{
    let path = trimmed(t.text.as_str());
    if has_parent_dir(&t.parts) {
        return Err(cat2("拒绝删除：路径不能包含 `..`\n", path.as_str()));
    }
    if !t.logical_present && !t.plain_present {
        return Err(cat2("Skill 路径不存在（可能已删除）: ", path.as_str()));
    }
    if !t.under_root {
        return Err(cat2("拒绝删除：路径不在 Skills 搜索目录内\n", t.display.as_str()));
    }
    Ok(Deletion::At { logical: t.logical_present })
}

/// Decides what to delete for a name, trimmed and in lower case too, and perhaps a
/// path.
pub fn decide_deletion(name: &str, needle: &str, root: &Option<RootTarget>) -> (r: Result<
    Deletion,
    String,
>)
    ensures
        deletion_result(r) == deletion(name@, needle@, *root),
{
    if name.is_empty() || str_contains(name, "..") {
        return Err("非法 Skill 名称".to_string());
    }
    if let Some(t) = root {
        if !trimmed(t.text.as_str()).as_str().is_empty() {
            return delete_at(t);
        }
    }
    Ok(Deletion::Named { name: name.to_string(), needle: needle.to_string() })
}

impl SkillLoader {
    /// Decides what to delete for a name and perhaps a path. A path that was given
    /// counts; without one, the skills of the name do.
    pub fn delete_skill_package(name: &str, root: &Option<RootTarget>) -> (r: Result<
        Deletion,
        String,
    >)
        ensures
            deletion_result(r) == deletion(
                text::trim_of(name@),
                text::unicode_lowered(text::trim_of(name@)),
                *root,
            ),
    {
        let t = trimmed(name);
        let needle = lowercase(t.as_str());
        decide_deletion(t.as_str(), needle.as_str(), root)
    }
}

// ── Looking for a name ──────────────────────────────────────────────────────

/// What to do with an entry while a skill is looked for by name, given what it is
/// and whether there is a `SKILL.md` in it: a skill is taken, and only a real
/// directory is looked into.
pub fn target_entry(kind: EntryKind, has_skill_md: bool) -> (r: Visit)
    ensures
        r == (if kind != EntryKind::Dir && kind != EntryKind::Symlink {
            Visit::Skip
        } else if has_skill_md {
            Visit::Take
        } else if kind == EntryKind::Dir {
            Visit::Descend
        } else {
            Visit::Skip
        }),
{
    if kind != EntryKind::Dir && kind != EntryKind::Symlink {
        Visit::Skip
    } else if has_skill_md {
        Visit::Take
    } else if kind == EntryKind::Dir {
        Visit::Descend
    } else {
        Visit::Skip
    }
}

/// Whether a skill, by the name of its directory or that of its header, is the one
/// that is looked for. The name in the header is given in lower case too.
pub open spec fn is_sought(
    folder: Option<Seq<char>>,
    header: Option<(Seq<char>, Seq<char>)>,
    name: Seq<char>,
    needle: Seq<char>,
) -> bool {
    ||| (folder matches Some(f) && text::ascii_lowered(f) == text::ascii_lowered(name))
    ||| (header matches Some(h) && (text::ascii_lowered(h.0) == text::ascii_lowered(needle) || h.1
        == needle))
}

/// Whether a skill is the one that is looked for, given the name in its header in
/// lower case too.
pub fn sought(
    folder: &Option<String>,
    header: &Option<(String, String)>,
    name: &str,
    needle: &str,
) -> (b: bool)
    ensures
        b == is_sought(
            text::opt_text(*folder),
            match header {
                Some(h) => Some((h.0@, h.1@)),
                None => None,
            },
            name@,
            needle@,
        ),
{
    if let Some(f) = folder {
        if same_ignoring_case(f.as_str(), name) {
            return true;
        }
    }
    match header {
        Some(h) => same_ignoring_case(h.0.as_str(), needle) || same(h.1.as_str(), needle),
        None => false,
    }
}

/// Whether the skill in a directory with this `SKILL.md` is the one that is looked
/// for. A file that cannot be read names none.
pub fn matches_target(
    folder: &Option<String>,
    content: &Option<String>,
    name: &str,
    needle: &str,
) -> (b: bool)
    ensures
        b == is_sought(
            text::opt_text(*folder),
            match content {
                Some(c) => match frontmatter::name_in(c@) {
                    Some(n) => Some((n, text::unicode_lowered(n))),
                    None => None,
                },
                None => None,
            },
            name@,
            needle@,
        ),
{
    let header = match content {
        Some(c) => match parse_frontmatter_name(c.as_str()) {
            Some(n) => {
                let low = lowercase(n.as_str());
                Some((n, low))
            },
            None => None,
        },
        None => None,
    };
    sought(folder, &header, name, needle)
}

// ── Targets ─────────────────────────────────────────────────────────────────

/// A path to delete.
#[derive(Debug)]
pub struct Target {
    pub parts: Vec<PathPart>,
    /// The path with its directory resolved, but not its last part.
    pub leaf: Vec<PathPart>,
    /// The path for display.
    pub display: String,
}

/// A path to delete, as a value.
#[verifier::ext_equal]
pub struct TargetView {
    pub parts: Seq<PartView>,
    pub leaf: Seq<PartView>,
    pub display: Seq<char>,
}

impl View for Target {
    type V = TargetView;

    open spec fn view(&self) -> TargetView {
        TargetView {
            parts: paths::path_view(self.parts@),
            leaf: paths::path_view(self.leaf@),
            display: self.display@,
        }
    }
}

/// The values of the paths to delete.
pub open spec fn target_views(v: Seq<Target>) -> Seq<TargetView> {
    v.map_values(|t: Target| t@)
}

/// Whether a path is among those to delete, by how it is shown or where it leads.
pub open spec fn has_target(s: Seq<TargetView>, t: TargetView) -> bool {
    exists|i: int|
        0 <= i < s.len() && ((#[trigger] s[i]).display == t.display || s[i].leaf == t.leaf)
}

/// Adds a path to delete, unless it is among them.
pub fn push_unique_target(targets: &mut Vec<Target>, t: Target)
    ensures
        target_views(final(targets)@) == (if has_target(target_views(old(targets)@), t@) {
            target_views(old(targets)@)
        } else {
            target_views(old(targets)@).push(t@)
        }),
{
    let ghost s = target_views(targets@);
    let n: usize = targets.len();
    for i in 0..n
        invariant
            n == targets@.len(),
            s == target_views(targets@),
            *targets == *old(targets),
            forall|k: int|
                0 <= k < i ==> !((#[trigger] s[k]).display == t@.display || s[k].leaf == t@.leaf),
    {
        assert(s[i as int] == targets@[i as int]@);
        if same(targets[i].display.as_str(), t.display.as_str()) || same_path(
            &targets[i].leaf,
            &t.leaf,
        ) {
            assert(has_target(s, t@));
            return;
        }
    }
    assert(!has_target(s, t@));
    targets.push(t);
    assert(target_views(targets@) =~= s.push(t@));
}

/// The order of the kinds of parts.
pub open spec fn part_rank(p: PartView) -> int {
    match p {
        PartView::Prefix(_) => 0,
        PartView::RootDir => 1,
        PartView::CurDir => 2,
        PartView::ParentDir => 3,
        PartView::Normal(_) => 4,
    }
}

/// Whether one part of a path comes before another.
pub open spec fn part_before(a: PartView, b: PartView) -> bool {
    match (a, b) {
        (PartView::Prefix(x), PartView::Prefix(y)) => text::before(x, y),
        (PartView::Normal(x), PartView::Normal(y)) => text::before(x, y),
        _ => part_rank(a) < part_rank(b),
    }
}

/// Whether one path comes before another, from part `k` on.
pub open spec fn path_before(a: Seq<PartView>, b: Seq<PartView>, k: int) -> bool
    decreases a.len() - k,
{
    if k < 0 || k >= b.len() {
        false
    } else if k >= a.len() {
        true
    } else if a[k] == b[k] {
        path_before(a, b, k + 1)
    } else {
        part_before(a[k], b[k])
    }
}

fn rank_of(p: &PathPart) -> (r: u8)
    ensures
        r == part_rank(p@),
{
    match p {
        PathPart::Prefix(_) => 0,
        PathPart::RootDir => 1,
        PathPart::CurDir => 2,
        PathPart::ParentDir => 3,
        PathPart::Normal(_) => 4,
    }
}

fn part_comes_before(a: &PathPart, b: &PathPart) -> (r: bool)
    ensures
        r == part_before(a@, b@),
{
    match (a, b) {
        (PathPart::Prefix(x), PathPart::Prefix(y)) => comes_before(x.as_str(), y.as_str()),
        (PathPart::Normal(x), PathPart::Normal(y)) => comes_before(x.as_str(), y.as_str()),
        _ => rank_of(a) < rank_of(b),
    }
}

fn path_comes_before(a: &Vec<PathPart>, b: &Vec<PathPart>) -> (r: bool)
    ensures
        r == path_before(paths::path_view(a@), paths::path_view(b@), 0),
{
    let ghost x = paths::path_view(a@);
    let ghost y = paths::path_view(b@);
    let n: usize = a.len();
    let m: usize = b.len();
    let mut k: usize = 0;
    while k < n && k < m
        invariant
            k <= n == a@.len(),
            k <= m == b@.len(),
            x == paths::path_view(a@),
            y == paths::path_view(b@),
            path_before(x, y, 0) == path_before(x, y, k as int),
        decreases n - k,
    {
        assert(x[k as int] == a@[k as int]@ && y[k as int] == b@[k as int]@);
        if part_comes_before(&a[k], &b[k]) {
            proof {
                lemma_part_before(x[k as int], y[k as int]);
            }
            return true;
        }
        if part_comes_before(&b[k], &a[k]) {
            proof {
                lemma_part_before(y[k as int], x[k as int]);
            }
            return false;
        }
        proof {
            lemma_part_before(x[k as int], y[k as int]);
        }
        k = k + 1;
    }
    k < m
}

proof fn lemma_part_before(a: PartView, b: PartView)
    ensures
        part_before(a, b) ==> a != b && !part_before(b, a),
        a != b ==> part_before(a, b) || part_before(b, a),
{
    match (a, b) {
        (PartView::Prefix(x), PartView::Prefix(y)) => {
            text::lemma_before_is_total(x, y);
        },
        (PartView::Normal(x), PartView::Normal(y)) => {
            text::lemma_before_is_total(x, y);
        },
        _ => {},
    }
}

/// Where a path goes among ordered ones from `k` on: before the first that does not
/// come before it.
pub open spec fn target_place(s: Seq<TargetView>, path: Seq<PartView>, k: int) -> int
    decreases s.len() - k,
{
    if 0 <= k < s.len() && path_before(s[k].parts, path, 0) {
        target_place(s, path, k + 1)
    } else {
        k
    }
}

/// Ordered paths with one more, unless it is among them.
pub open spec fn with_target(s: Seq<TargetView>, t: TargetView) -> Seq<TargetView> {
    let k = target_place(s, t.parts, 0);
    if 0 <= k < s.len() && s[k].parts == t.parts {
        s
    } else {
        s.insert(k, t)
    }
}

/// The first `n` paths, ordered, each once.
pub open spec fn ordered_targets(s: Seq<TargetView>, n: int) -> Seq<TargetView>
    decreases n,
{
    if n <= 0 {
        Seq::empty()
    } else {
        with_target(ordered_targets(s, n - 1), s[n - 1])
    }
}

/// Orders the paths to delete, each once.
pub fn order_targets(targets: Vec<Target>) -> (r: Vec<Target>)
    ensures
        target_views(r@) == ordered_targets(target_views(targets@), targets@.len() as int),
{
    let ghost s = target_views(targets@);
    let n: usize = targets.len();
    let mut r: Vec<Target> = Vec::new();
    let mut i: usize = 0;
    assert(target_views(r@) =~= ordered_targets(s, 0));
    for t in it: targets
        invariant
            it.seq() == targets@,
            i == it.index(),
            n == targets@.len(),
            s == target_views(targets@),
            target_views(r@) == ordered_targets(s, i as int),
    {
        let ghost front = target_views(r@);
        assert(s[i as int] == t@);
        let m: usize = r.len();
        let mut k: usize = 0;
        while k < m && path_comes_before(&r[k].parts, &t.parts)
            invariant
                k <= m == r@.len(),
                front == target_views(r@),
                target_place(front, t@.parts, 0) == target_place(front, t@.parts, k as int),
            decreases m - k,
        {
            assert(front[k as int] == r@[k as int]@);
            k = k + 1;
        }
        proof {
            if k < m {
                assert(front[k as int] == r@[k as int]@);
            }
            assert(k == target_place(front, t@.parts, 0));
        }
        if !(k < m && same_path(&r[k].parts, &t.parts)) {
            r.insert(k, t);
            assert(target_views(r@) =~= front.insert(k as int, t@));
        }
        i = i + 1;
    }
    r
}

// ── Checks ──────────────────────────────────────────────────────────────────

/// What is known of a path that is to be deleted.
#[derive(Debug)]
pub struct TargetFacts {
    /// Whether there is anything.
    pub present: bool,
    /// The name of the directory; empty where it has none.
    pub folder: String,
    pub is_symlink: bool,
    pub has_skill_md: bool,
    /// The content of its `SKILL.md`, where it can be read.
    pub content: Option<String>,
    /// The path for display.
    pub display: String,
}

/// Why a path may not be deleted as the skill that was asked for, given the names in
/// lower case.
pub open spec fn target_fault(
    f: TargetFacts,
    folder: Seq<char>,
    header: Option<Seq<char>>,
    requested: Seq<char>,
    requested_name: Seq<char>,
) -> Option<Seq<char>> {
    let fits = requested.len() > 0 && requested == folder;
    if !f.present {
        None
    } else if f.is_symlink {
        if fits {
            None
        } else {
            Some(
                "拒绝删除 "@ + f.display@ + "：符号链接名 `"@ + folder + "` 与请求的 `"@
                    + requested_name + "` 不一致"@,
            )
        }
    } else if !f.has_skill_md {
        Some("拒绝删除 "@ + f.display@ + "：不是 skill 包（目录中没有 SKILL.md）"@)
    } else if fits {
        None
    } else {
        match header {
            Some(n) => if n == requested {
                None
            } else {
                Some(
                    "拒绝删除 "@ + f.display@ + "：SKILL.md 的 name `"@ + n + "` 与请求的 `"@
                        + requested_name + "` 不一致"@,
                )
            },
            None => Some("拒绝删除 "@ + f.display@ + "：SKILL.md 缺少 name 字段"@),
        }
    }
}

/// The name in the header of a target, trimmed and in lower case.
pub open spec fn header_name(f: TargetFacts) -> Option<Seq<char>> {
    match f.content {
        Some(c) => match frontmatter::name_in(c@) {
            Some(n) => Some(text::unicode_lowered(text::trim_of(n))),
            None => None,
        },
        None => None,
    }
}

/// The value of a result that is nothing or an error.
pub open spec fn fault_of(r: Result<(), String>) -> Option<Seq<char>> {
    match r {
        Ok(_) => None,
        Err(e) => Some(e@),
    }
}

/// Checks a path that is to be deleted, given the names in lower case.
pub fn judge_target(
    f: &TargetFacts,
    folder: &str,
    header: &Option<String>,
    requested: &str,
    requested_name: &str,
) -> (r: Result<(), String>)
    ensures
        fault_of(r) == target_fault(
            *f,
            folder@,
            text::opt_text(*header),
            requested@,
            requested_name@,
        ),
{
    if !f.present {
        return Ok(());
    }
    let fits = !requested.is_empty() && same(requested, folder);
    let refused = cat2("拒绝删除 ", f.display.as_str());
    if f.is_symlink {
        return if fits {
            Ok(())
        } else {
            Err(
                refused.concat("：符号链接名 `").concat(folder).concat("` 与请求的 `").concat(
                    requested_name,
                ).concat("` 不一致"),
            )
        };
    }
    if !f.has_skill_md {
        return Err(refused.concat("：不是 skill 包（目录中没有 SKILL.md）"));
    }
    if fits {
        return Ok(());
    }
    match header {
        Some(n) => if same(n.as_str(), requested) {
            Ok(())
        } else {
            Err(
                refused.concat("：SKILL.md 的 name `").concat(n.as_str()).concat(
                    "` 与请求的 `",
                ).concat(requested_name).concat("` 不一致"),
            )
        },
        None => Err(refused.concat("：SKILL.md 缺少 name 字段")),
    }
}

/// Checks that a path that is to be deleted is the skill that was asked for: a link
/// of its name, or a directory with a `SKILL.md` whose own name or header says so.
pub fn validate_skill_target(f: &TargetFacts, requested_name: &str) -> (r: Result<(), String>)
    ensures
        fault_of(r) == target_fault(
            *f,
            text::unicode_lowered(f.folder@),
            header_name(*f),
            text::unicode_lowered(text::trim_of(requested_name@)),
            requested_name@,
        ),
{
    let folder = lowercase(f.folder.as_str());
    let requested = lowercase(trimmed(requested_name).as_str());
    let header = match &f.content {
        Some(c) => match parse_frontmatter_name(c.as_str()) {
            Some(n) => Some(lowercase(trimmed(n.as_str()).as_str())),
            None => None,
        },
        None => None,
    };
    judge_target(f, folder.as_str(), &header, requested.as_str(), requested_name)
}

// ── Removing ────────────────────────────────────────────────────────────────

/// How often the removal of a directory is tried.
pub const REMOVE_ATTEMPTS: u32 = 5;

/// How to remove a path.
#[derive(Debug, Clone, Copy, PartialEq, Eq, Structural)]
pub enum Removal {
    /// There is nothing to remove.
    Nothing,
    /// Unlink it and leave what it points to.
    Unlink,
    /// Remove the directory and all that is in it.
    Tree,
    /// Leave it: it is not a skill.
    Refuse,
}

/// How to remove a path: a link is only unlinked, and only a skill is removed with
/// all that is in it.
pub fn removal_of(present: bool, is_symlink: bool, has_skill_md: bool) -> (r: Removal)
    ensures
        r == (if !present {
            Removal::Nothing
        } else if is_symlink {
            Removal::Unlink
        } else if has_skill_md {
            Removal::Tree
        } else {
            Removal::Refuse
        }),
{
    if !present {
        Removal::Nothing
    } else if is_symlink {
        Removal::Unlink
    } else if has_skill_md {
        Removal::Tree
    } else {
        Removal::Refuse
    }
}

/// What is said where a directory is not removed because it is not a skill.
pub fn refusal_text(display: &str) -> (r: String)
    ensures
        r@ == "拒绝删除 "@ + display@ + "：目标不是 skill 包（缺少 SKILL.md）"@,
{
    cat3("拒绝删除 ", display, "：目标不是 skill 包（缺少 SKILL.md）")
}

/// How one try to remove a directory went: first entry by entry, then, where that
/// was not enough, as a whole.
#[derive(Debug)]
pub struct RemovalTry {
    /// What went wrong entry by entry.
    pub walk_error: Option<String>,
    /// What went wrong as a whole.
    pub whole_error: Option<String>,
    /// Whether the directory is gone after the try.
    pub gone: bool,
}

/// What to do after a try to remove a directory.
#[derive(Debug)]
pub enum RemovalStep {
    Done,
    /// Wait the milliseconds and try again.
    Retry(u64),
    Failed(String),
}

/// What to do after a try, as a value.
#[verifier::ext_equal]
pub enum RemovalStepView {
    Done,
    Retry(u64),
    Failed(Seq<char>),
}

impl View for RemovalStep {
    type V = RemovalStepView;

    open spec fn view(&self) -> RemovalStepView {
        match self {
            RemovalStep::Done => RemovalStepView::Done,
            RemovalStep::Retry(ms) => RemovalStepView::Retry(*ms),
            RemovalStep::Failed(s) => RemovalStepView::Failed(s@),
        }
    }
}

/// What is said of a try that failed.
pub open spec fn try_text(t: RemovalTry) -> Seq<char> {
    match t.walk_error {
        Some(w) => match t.whole_error {
            Some(e) => w@ + "; remove_dir_all: "@ + e@,
            None => "path still exists after remove_dir_all"@,
        },
        None => "path still exists after manual remove"@,
    }
}

/// Whether a try has removed the directory. One in which both ways failed counts as
/// none, so that the next try looks again.
pub open spec fn try_succeeded(t: RemovalTry) -> bool {
    t.gone && !(t.walk_error is Some && t.whole_error is Some)
}

/// What to do after try `attempt`, counted from one, to remove a directory.
pub open spec fn tried(attempt: u32, t: RemovalTry, shown: Seq<char>) -> RemovalStepView {
    if try_succeeded(t) {
        RemovalStepView::Done
    } else if attempt < REMOVE_ATTEMPTS {
        RemovalStepView::Retry((50 * attempt) as u64)
    } else {
        RemovalStepView::Failed(
            "无法删除 "@ + shown + "（"@ + try_text(t) + "）。请检查权限或是否被占用。"@,
        )
    }
}

/// Says what to do after try `attempt`, counted from one, to remove a directory.
pub fn after_try(attempt: u32, t: &RemovalTry, shown: &str) -> (r: RemovalStep)
    ensures
        r@ == tried(attempt, *t, shown@),
{
    if t.gone && !(t.walk_error.is_some() && t.whole_error.is_some()) {
        return RemovalStep::Done;
    }
    if attempt < REMOVE_ATTEMPTS {
        return RemovalStep::Retry(50 * (attempt as u64));
    }
    let why = match &t.walk_error {
        Some(w) => match &t.whole_error {
            Some(e) => cat3(w.as_str(), "; remove_dir_all: ", e.as_str()),
            None => "path still exists after remove_dir_all".to_string(),
        },
        None => "path still exists after manual remove".to_string(),
    };
    RemovalStep::Failed(
        cat3("无法删除 ", shown, "（").concat(why.as_str()).concat("）。请检查权限或是否被占用。"),
    )
}

// ── The report ──────────────────────────────────────────────────────────────

/// What is said where no skill of the name was found.
pub open spec fn not_found_of(name: Seq<char>, partner: Seq<char>) -> Seq<char> {
    "未找到可删除的 skill `"@ + name + "`（已扫描 ~/.dscode/skills"@ + (if partner.len() == 0 {
        " 等）"@
    } else {
        "、~/."@ + partner + "/skills 等）"@
    })
}

/// What is said where no skill of the name was found; `partner` names the partner
/// agent, if there is one.
pub fn not_found_text(name: &str, partner: &str) -> (r: String)
    ensures
        r@ == not_found_of(name@, partner@),
{
    let head = cat3("未找到可删除的 skill `", name, "`（已扫描 ~/.dscode/skills");
    if partner.is_empty() {
        head.concat(" 等）")
    } else {
        head.concat(cat3("、~/.", partner, "/skills 等）").as_str())
    }
}

/// What is said of a deletion: an error where nothing was removed.
pub open spec fn report_of(removed: Seq<Seq<char>>, errors: Seq<Seq<char>>) -> Result<
    Seq<char>,
    Seq<char>,
> {
    if removed.len() == 0 {
        Err("删除失败:\n"@ + text::joined(errors, "\n"@))
    } else if errors.len() > 0 {
        Ok(
            "已删除 "@ + text::dec(removed.len()) + " 处，部分失败:\n"@ + text::joined(errors, "\n"@)
                + "\n成功: "@ + text::joined(removed, ", "@),
        )
    } else {
        Ok(
            "已删除 skill（"@ + text::dec(removed.len()) + " 处）: "@ + text::joined(
                removed,
                ", "@,
            ),
        )
    }
}

/// What is said of a deletion.
pub fn deletion_report(removed: &Vec<String>, errors: &Vec<String>) -> (r: Result<String, String>)
    ensures
        crate::extensions::naming::result_text(r) == report_of(
            text::texts(removed@),
            text::texts(errors@),
        ),
{
    let n: usize = removed.len();
    if n == 0 {
        return Err(cat2("删除失败:\n", join(errors, "\n").as_str()));
    }
    let count = decimal(n as u64);
    let all = join(removed, ", ");
    if errors.len() > 0 {
        return Ok(
            cat3("已删除 ", count.as_str(), " 处，部分失败:\n").concat(
                join(errors, "\n").as_str(),
            ).concat("\n成功: ").concat(all.as_str()),
        );
    }
    Ok(cat3("已删除 skill（", count.as_str(), " 处）: ").concat(all.as_str()))
}

// ── Laws ────────────────────────────────────────────────────────────────────

/// Nothing is deleted at a path that goes up, or outside of the directories that
/// skills are looked for in, whatever name it is given with.
pub proof fn law_deletion_stays_inside(name: Seq<char>, needle: Seq<char>, t: RootTarget)
    requires
        text::trim_of(t.text@).len() > 0,
        paths::goes_up(paths::path_view(t.parts@)) || !t.under_root,
    ensures
        deletion(name, needle, Some(t)) is Err,
{
}

/// A directory without a `SKILL.md` is never deleted, whatever is asked for; and one
/// whose name and header both differ from what is asked for is not either.
pub proof fn law_only_the_skill_is_deleted(
    f: TargetFacts,
    folder: Seq<char>,
    header: Option<Seq<char>>,
    requested: Seq<char>,
    requested_name: Seq<char>,
)
    requires
        f.present,
        !f.is_symlink,
    ensures
        !f.has_skill_md ==> target_fault(f, folder, header, requested, requested_name) is Some,
        folder != requested && header != Some(requested) ==> target_fault(
            f,
            folder,
            header,
            requested,
            requested_name,
        ) is Some,
{
}

/// A package that is the skill that was asked for, by its folder or by the name in its
/// header, may be deleted; and what is not there needs no deleting.
pub proof fn law_asked_for_skill_may_be_deleted(
    f: TargetFacts,
    folder: Seq<char>,
    header: Option<Seq<char>>,
    requested: Seq<char>,
    requested_name: Seq<char>,
)
    ensures
        !f.present ==> target_fault(f, folder, header, requested, requested_name) is None,
        f.present && requested.len() > 0 && folder == requested && (f.is_symlink || f.has_skill_md)
            ==> target_fault(f, folder, header, requested, requested_name) is None,
        f.present && !f.is_symlink && f.has_skill_md && header == Some(requested) ==> target_fault(
            f,
            folder,
            header,
            requested,
            requested_name,
        ) is None,
        f.present && f.is_symlink && folder != requested ==> target_fault(
            f,
            folder,
            header,
            requested,
            requested_name,
        ) is Some,
{
}

/// A deletion that worked is done; one that did not is tried again, after a wait that grows,
/// until the tries are used up.
pub proof fn law_deletion_is_tried_again(attempt: u32, t: RemovalTry, shown: Seq<char>)
    requires
        1 <= attempt <= REMOVE_ATTEMPTS,
    ensures
        t.gone && t.walk_error is None ==> tried(attempt, t, shown) is Done,
        !t.gone && attempt < REMOVE_ATTEMPTS ==> tried(attempt, t, shown)
            == RemovalStepView::Retry((50 * attempt) as u64),
        !t.gone && attempt == REMOVE_ATTEMPTS ==> tried(attempt, t, shown) is Failed,
{
}

/// What was deleted is reported, and so is everything that could not be.
#[verifier::rlimit(40)]
pub proof fn law_deletions_are_reported(removed: Seq<Seq<char>>, errors: Seq<Seq<char>>, i: int)
    ensures
        report_of(removed, errors) is Ok <==> removed.len() > 0,
        0 <= i < removed.len() ==> (report_of(removed, errors) matches Ok(s) && text::has_part(
            s,
            removed[i],
        )),
        0 <= i < errors.len() ==> match report_of(removed, errors) {
            Ok(s) => text::has_part(s, errors[i]),
            Err(s) => text::has_part(s, errors[i]),
        },
{
    let none = Seq::<char>::empty();
    let r = text::joined(removed, ", "@);
    let e = text::joined(errors, "\n"@);
    let n = text::dec(removed.len());
    if 0 <= i < removed.len() {
        text::lemma_joined_has(removed, ", "@, i);
        if errors.len() > 0 {
            let a = "已删除 "@ + n + " 处，部分失败:\n"@ + e + "\n成功: "@;
            text::lemma_part_of_part(a, r, none, removed[i]);
            assert(a + r + none =~= report_of(removed, errors)->Ok_0);
        } else {
            let a = "已删除 skill（"@ + n + " 处）: "@;
            text::lemma_part_of_part(a, r, none, removed[i]);
            assert(a + r + none =~= report_of(removed, errors)->Ok_0);
        }
    }
    if 0 <= i < errors.len() {
        text::lemma_joined_has(errors, "\n"@, i);
        if removed.len() == 0 {
            text::lemma_part_of_part("删除失败:\n"@, e, none, errors[i]);
            assert("删除失败:\n"@ + e + none =~= report_of(removed, errors)->Err_0);
        } else {
            let a = "已删除 "@ + n + " 处，部分失败:\n"@;
            let z = "\n成功: "@ + r;
            text::lemma_part_of_part(a, e, z, errors[i]);
            assert(a + e + z =~= report_of(removed, errors)->Ok_0);
        }
    }
}

} // verus!
