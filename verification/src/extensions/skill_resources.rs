//! The files of a skill, and which entries of a directory count.
//!
//! A walk never goes through a symbolic link: a skill must not bring in files from
//! outside of its directory.

use crate::extensions::skills;
use crate::extensions::skills::{ResourceView, SkillResource, SkillResourceKind};
use crate::text;
use crate::text::{comes_before, lowercase, same, same_ignoring_case, str_ends_with, str_starts_with};
use vstd::prelude::*;

verus! {

/// How deep skills are looked for.
pub const MAX_DEPTH: usize = 5;

/// How deep packages are looked for in a repository.
pub const MAX_PACKAGE_DEPTH: usize = 6;

/// How deep the files of a skill are looked for.
pub const MAX_RESOURCE_DEPTH: usize = 4;

/// What an entry of a directory is, without following a link.
#[derive(Debug, Clone, Copy, PartialEq, Eq, Structural)]
pub enum EntryKind {
    File,
    Dir,
    Symlink,
    Other,
}

/// What to do with an entry of a directory.
#[derive(Debug, Clone, Copy, PartialEq, Eq, Structural)]
pub enum Visit {
    /// Pass it over.
    Skip,
    /// Take it.
    Take,
    /// Look into it, one level deeper.
    Descend,
}

// ── Scripts ─────────────────────────────────────────────────────────────────

/// Whether a name, given in lower case, is that of a script.
pub open spec fn names_script(low: Seq<char>) -> bool {
    ||| text::ends(low, ".sh"@)
    ||| text::ends(low, ".bash"@)
    ||| text::ends(low, ".py"@)
    ||| text::ends(low, ".js"@)
    ||| text::ends(low, ".mjs"@)
    ||| text::ends(low, ".cjs"@)
    ||| text::ends(low, ".ts"@)
    ||| text::ends(low, ".rb"@)
    ||| text::ends(low, ".pl"@)
    ||| text::ends(low, ".r"@)
    ||| text::ends(low, ".ps1"@)
    ||| low == "run"@
    ||| low == "main"@
}

/// Whether a name, given in lower case, is that of a script.
pub fn lowered_names_script(low: &str) -> (b: bool)
    ensures
        b == names_script(low@),
{
    str_ends_with(low, ".sh") || str_ends_with(low, ".bash") || str_ends_with(low, ".py")
        || str_ends_with(low, ".js") || str_ends_with(low, ".mjs") || str_ends_with(low, ".cjs")
        || str_ends_with(low, ".ts") || str_ends_with(low, ".rb") || str_ends_with(low, ".pl")
        || str_ends_with(low, ".r") || str_ends_with(low, ".ps1") || same(low, "run") || same(
        low,
        "main",
    )
}

/// Whether a name is that of a script.
pub fn looks_like_script(name: &str) -> (b: bool)
    ensures
        b == names_script(text::unicode_lowered(name@)),
{
    lowered_names_script(lowercase(name).as_str())
}

// ── Entries ─────────────────────────────────────────────────────────────────

/// What to do with an entry while skills are loaded: a directory with a `SKILL.md`
/// is a skill, any other is looked into. Links to directories count here.
pub fn load_entry(is_dir: bool, has_skill_md: bool) -> (r: Visit)
    ensures
        r == (if !is_dir {
            Visit::Skip
        } else if has_skill_md {
            Visit::Take
        } else {
            Visit::Descend
        }),
{
    if !is_dir {
        Visit::Skip
    } else if has_skill_md {
        Visit::Take
    } else {
        Visit::Descend
    }
}

/// Whether a directory at this depth is still looked into while skills are loaded.
pub fn loads_at(depth: usize) -> (b: bool)
    ensures
        b == (depth <= MAX_DEPTH),
{
    depth <= MAX_DEPTH
}

/// What to do with an entry while a repository is searched for packages.
pub open spec fn package_visit(kind: EntryKind, name: Seq<char>) -> Visit {
    if kind != EntryKind::Dir || text::starts(name, "."@) || name == "node_modules"@ || name
        == "target"@ {
        Visit::Skip
    } else {
        Visit::Descend
    }
}

/// What to do with an entry while a repository is searched for packages.
pub fn package_entry(kind: EntryKind, name: &str) -> (r: Visit)
    ensures
        r == package_visit(kind, name@),
{
    if kind != EntryKind::Dir || str_starts_with(name, ".") || same(name, "node_modules") || same(
        name,
        "target",
    ) {
        Visit::Skip
    } else {
        Visit::Descend
    }
}

/// What to do with a directory while a repository is searched for packages: one
/// with a `SKILL.md` is a package, and is not looked into.
pub fn package_dir(depth: usize, has_skill_md: bool) -> (r: Visit)
    ensures
        r == (if depth > MAX_PACKAGE_DEPTH {
            Visit::Skip
        } else if has_skill_md {
            Visit::Take
        } else {
            Visit::Descend
        }),
{
    if depth > MAX_PACKAGE_DEPTH {
        Visit::Skip
    } else if has_skill_md {
        Visit::Take
    } else {
        Visit::Descend
    }
}

/// What to do with an entry below one of the directories for files of a skill.
pub open spec fn resource_visit(kind: EntryKind, name: Seq<char>) -> Visit {
    match kind {
        EntryKind::Dir => Visit::Descend,
        EntryKind::File => if text::starts(name, "."@) {
            Visit::Skip
        } else {
            Visit::Take
        },
        _ => Visit::Skip,
    }
}

/// What to do with an entry below one of the directories for files of a skill.
pub fn resource_entry(kind: EntryKind, name: &str) -> (r: Visit)
    ensures
        r == resource_visit(kind, name@),
{
    match kind {
        EntryKind::Dir => Visit::Descend,
        EntryKind::File => if str_starts_with(name, ".") {
            Visit::Skip
        } else {
            Visit::Take
        },
        _ => Visit::Skip,
    }
}

/// Whether a directory at this depth is still looked into for files of a skill.
pub fn walks_at(depth: usize) -> (b: bool)
    ensures
        b == (depth <= MAX_RESOURCE_DEPTH),
{
    depth <= MAX_RESOURCE_DEPTH
}

/// What to do with an entry beside a `SKILL.md`: a script counts, given whether its
/// name is that of one.
pub open spec fn root_visit(kind: EntryKind, name: Seq<char>, script: bool) -> Visit {
    if kind != EntryKind::File || text::ascii_lowered(name) == text::ascii_lowered("SKILL.md"@)
        || text::starts(name, "."@) || !script {
        Visit::Skip
    } else {
        Visit::Take
    }
}

/// What to do with an entry beside a `SKILL.md`, given whether its name is that of a
/// script.
pub fn root_entry(kind: EntryKind, name: &str, script: bool) -> (r: Visit)
    ensures
        r == root_visit(kind, name@, script),
{
    if kind != EntryKind::File || same_ignoring_case(name, "SKILL.md") || str_starts_with(name, ".")
        || !script {
        Visit::Skip
    } else {
        Visit::Take
    }
}

/// What to do with an entry of a package that is copied.
pub fn copy_entry(kind: EntryKind) -> (r: Visit)
    ensures
        r == (match kind {
            EntryKind::Symlink => Visit::Skip,
            EntryKind::Dir => Visit::Descend,
            _ => Visit::Take,
        }),
{
    match kind {
        EntryKind::Symlink => Visit::Skip,
        EntryKind::Dir => Visit::Descend,
        _ => Visit::Take,
    }
}

// ── Files ───────────────────────────────────────────────────────────────────

/// Whether a file counts as executable: only a script does, by its name or by its
/// mode.
pub fn resource_executable(kind: SkillResourceKind, script_name: bool, mode_executable: bool) -> (b:
    bool)
    ensures
        b == (kind == SkillResourceKind::Script && (script_name || mode_executable)),
{
    kind == SkillResourceKind::Script && (script_name || mode_executable)
}

/// Where a path goes among the first `n` files, ordered by path: behind those that
/// do not come after it.
pub open spec fn file_place(s: Seq<ResourceView>, path: Seq<char>, n: int) -> int
    decreases n,
{
    if n <= 0 {
        0
    } else if !text::before(path, s[n - 1].relative_path) {
        n
    } else {
        file_place(s, path, n - 1)
    }
}

/// The first `n` files, ordered by path; those with the same path keep their order.
pub open spec fn by_path(s: Seq<ResourceView>, n: int) -> Seq<ResourceView>
    decreases n,
{
    if n <= 0 {
        Seq::empty()
    } else {
        let front = by_path(s, n - 1);
        front.insert(file_place(front, s[n - 1].relative_path, front.len() as int), s[n - 1])
    }
}

proof fn lemma_file_place(s: Seq<ResourceView>, path: Seq<char>, n: int)
    requires
        0 <= n <= s.len(),
    ensures
        0 <= file_place(s, path, n) <= n,
        forall|i: int|
            file_place(s, path, n) <= i < n ==> text::before(path, (#[trigger] s[i]).relative_path),
        file_place(s, path, n) > 0 ==> !text::before(
            path,
            s[file_place(s, path, n) - 1].relative_path,
        ),
    decreases n,
{
    if n > 0 && text::before(path, s[n - 1].relative_path) {
        lemma_file_place(s, path, n - 1);
    }
}

/// Orders the files of a skill by their path.
pub fn sort_resources(files: Vec<SkillResource>) -> (r: Vec<SkillResource>)
    ensures
        skills::resource_views(r@) == by_path(
            skills::resource_views(files@),
            files@.len() as int,
        ),
{
    let ghost s = skills::resource_views(files@);
    let n: usize = files.len();
    let mut r: Vec<SkillResource> = Vec::new();
    let mut i: usize = 0;
    assert(skills::resource_views(r@) =~= by_path(s, 0));
    for f in it: files
        invariant
            it.seq() == files@,
            i == it.index(),
            n == files@.len(),
            s == skills::resource_views(files@),
            skills::resource_views(r@) == by_path(s, i as int),
    {
        let ghost front = skills::resource_views(r@);
        assert(s[i as int] == f@);
        let m: usize = r.len();
        let mut k: usize = m;
        while k > 0 && comes_before(f.relative_path.as_str(), r[k - 1].relative_path.as_str())
            invariant
                k <= m == r@.len(),
                front == skills::resource_views(r@),
                file_place(front, f.relative_path@, m as int) == file_place(
                    front,
                    f.relative_path@,
                    k as int,
                ),
            decreases k,
        {
            assert(front[k - 1] == r@[k - 1]@);
            k = k - 1;
        }
        proof {
            if k > 0 {
                assert(front[k - 1] == r@[k - 1]@);
            }
        }
        r.insert(k, f);
        assert(skills::resource_views(r@) =~= front.insert(k as int, f@));
        i = i + 1;
    }
    r
}

// ── Laws ────────────────────────────────────────────────────────────────────

/// A symbolic link is never taken and never looked into: not while a repository is
/// searched, not while the files of a skill are listed, and not while a package is
/// copied.
pub proof fn law_links_are_passed_over(name: Seq<char>, script: bool)
    ensures
        package_visit(EntryKind::Symlink, name) == Visit::Skip,
        resource_visit(EntryKind::Symlink, name) == Visit::Skip,
        root_visit(EntryKind::Symlink, name, script) == Visit::Skip,
{
}

/// The listed files are in order, and none is lost or added.
pub proof fn law_files_are_ordered(s: Seq<ResourceView>, n: int)
    requires
        0 <= n <= s.len(),
    ensures
        by_path(s, n).len() == n,
        by_path(s, n).to_multiset() == s.take(n).to_multiset(),
        forall|i: int, j: int|
            0 <= i < j < n ==> !text::before(
                (#[trigger] by_path(s, n)[j]).relative_path,
                (#[trigger] by_path(s, n)[i]).relative_path,
            ),
    decreases n,
{
    broadcast use vstd::seq_lib::group_to_multiset_ensures;

    if n > 0 {
        law_files_are_ordered(s, n - 1);
        let front = by_path(s, n - 1);
        let f = s[n - 1];
        let p = file_place(front, f.relative_path, front.len() as int);
        lemma_file_place(front, f.relative_path, front.len() as int);
        let all = by_path(s, n);
        let a = front.subrange(0, p);
        let b = front.subrange(p, front.len() as int);
        vstd::seq_lib::lemma_multiset_commutative(a, b);
        vstd::seq_lib::lemma_multiset_commutative(a.push(f), b);
        assert(front =~= a + b);
        assert(all =~= a.push(f) + b);
        assert(all.to_multiset() =~= front.to_multiset().insert(f));
        assert(s.take(n) =~= s.take(n - 1).push(f));
        assert forall|i: int, j: int| 0 <= i < j < n implies !text::before(
            (#[trigger] all[j]).relative_path,
            (#[trigger] all[i]).relative_path,
        ) by {
            if j < p {
                assert(all[i] == front[i] && all[j] == front[j]);
            } else if j == p {
                assert(all[i] == front[i]);
                text::lemma_before_is_total(front[p - 1].relative_path, f.relative_path);
                if i < p - 1 {
                    assert(!text::before(front[p - 1].relative_path, front[i].relative_path));
                    if text::before(f.relative_path, front[i].relative_path) {
                        let a = f.relative_path;
                        let b = front[i].relative_path;
                        let c = front[p - 1].relative_path;
                        text::lemma_before_is_total(b, c);
                        if b != c {
                            text::lemma_before_chains(a, b, c);
                        }
                    }
                }
            } else if i == p {
                assert(all[j] == front[j - 1]);
                text::lemma_before_is_total(f.relative_path, front[j - 1].relative_path);
            } else if i < p {
                assert(all[i] == front[i] && all[j] == front[j - 1]);
            } else {
                assert(all[i] == front[i - 1] && all[j] == front[j - 1]);
            }
        }
    } else {
        assert(by_path(s, n) =~= s.take(n));
    }
}

} // verus!
