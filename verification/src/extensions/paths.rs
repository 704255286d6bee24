//! Where skills are looked for, and what may be deleted there.
//!
//! A path is taken as its parts, so that nothing here depends on how a system
//! writes it.

use crate::extensions::skills::SkillLoader;
use crate::text::{cat2, same};
use vstd::prelude::*;

verus! {

/// One part of a path.
#[derive(Debug, PartialEq, Eq)]
pub enum PathPart {
    /// A drive or share.
    Prefix(String),
    /// The root of the file system.
    RootDir,
    /// The directory itself.
    CurDir,
    /// The directory above.
    ParentDir,
    /// A name.
    Normal(String),
}

/// One part of a path, as a value.
#[verifier::ext_equal]
pub enum PartView {
    Prefix(Seq<char>),
    RootDir,
    CurDir,
    ParentDir,
    Normal(Seq<char>),
}

impl View for PathPart {
    type V = PartView;

    open spec fn view(&self) -> PartView {
        match self {
            PathPart::Prefix(s) => PartView::Prefix(s@),
            PathPart::RootDir => PartView::RootDir,
            PathPart::CurDir => PartView::CurDir,
            PathPart::ParentDir => PartView::ParentDir,
            PathPart::Normal(s) => PartView::Normal(s@),
        }
    }
}

impl Clone for PathPart {
    fn clone(&self) -> (r: Self)
        ensures
            r@ == self@,
    {
        match self {
            PathPart::Prefix(s) => PathPart::Prefix(s.clone()),
            PathPart::RootDir => PathPart::RootDir,
            PathPart::CurDir => PathPart::CurDir,
            PathPart::ParentDir => PathPart::ParentDir,
            PathPart::Normal(s) => PathPart::Normal(s.clone()),
        }
    }
}

/// The value of a path.
pub open spec fn path_view(v: Seq<PathPart>) -> Seq<PartView> {
    v.map_values(|p: PathPart| p@)
}

/// The values of some paths.
pub open spec fn paths_view(v: Seq<Vec<PathPart>>) -> Seq<Seq<PartView>> {
    v.map_values(|p: Vec<PathPart>| path_view(p@))
}

fn same_part(a: &PathPart, b: &PathPart) -> (r: bool)
    ensures
        r == (a@ == b@),
{
    match (a, b) {
        (PathPart::Prefix(x), PathPart::Prefix(y)) => same(x.as_str(), y.as_str()),
        (PathPart::RootDir, PathPart::RootDir) => true,
        (PathPart::CurDir, PathPart::CurDir) => true,
        (PathPart::ParentDir, PathPart::ParentDir) => true,
        (PathPart::Normal(x), PathPart::Normal(y)) => same(x.as_str(), y.as_str()),
        _ => false,
    }
}

/// Whether a path starts with the parts of another.
pub open spec fn starts_with(path: Seq<PartView>, root: Seq<PartView>) -> bool {
    root.len() <= path.len() && path.take(root.len() as int) == root
}

/// Whether a path goes up.
pub open spec fn goes_up(path: Seq<PartView>) -> bool {
    exists|i: int| 0 <= i < path.len() && #[trigger] path[i] == PartView::ParentDir
}

/// Whether a path lies below another: it is deeper, starts with it, and never goes
/// up.
pub open spec fn strictly_under(path: Seq<PartView>, root: Seq<PartView>) -> bool {
    !goes_up(path) && path.len() > root.len() && starts_with(path, root)
}

/// Whether a path starts with the parts of another.
pub fn prefix_is(path: &Vec<PathPart>, root: &Vec<PathPart>) -> (b: bool)
    ensures
        b == starts_with(path_view(path@), path_view(root@)),
{
    let n: usize = root.len();
    let ghost p = path_view(path@);
    let ghost r = path_view(root@);
    if n > path.len() {
        return false;
    }
    for i in 0..n
        invariant
            n == root@.len() <= path@.len(),
            p == path_view(path@),
            r == path_view(root@),
            forall|k: int| 0 <= k < i ==> #[trigger] p[k] == r[k],
    {
        if !same_part(&path[i], &root[i]) {
            assert(p.take(n as int)[i as int] != r[i as int]);
            return false;
        }
    }
    assert(p.take(n as int) =~= r);
    true
}

/// Whether two paths are the same.
pub fn same_path(a: &Vec<PathPart>, b: &Vec<PathPart>) -> (r: bool)
    ensures
        r == (path_view(a@) == path_view(b@)),
{
    if a.len() != b.len() {
        assert(path_view(a@).len() != path_view(b@).len());
        return false;
    }
    let r = prefix_is(a, b);
    assert(path_view(a@).take(b@.len() as int) =~= path_view(a@));
    r
}

/// Whether a path goes up anywhere.
pub fn has_parent_dir(path: &Vec<PathPart>) -> (b: bool)
    ensures
        b == goes_up(path_view(path@)),
{
    let ghost p = path_view(path@);
    let n: usize = path.len();
    for i in 0..n
        invariant
            n == path@.len(),
            p == path_view(path@),
            forall|k: int| 0 <= k < i ==> #[trigger] p[k] != PartView::ParentDir,
    {
        assert(p[i as int] == path@[i as int]@);
        if let PathPart::ParentDir = path[i] {
            assert(goes_up(p));
            return true;
        }
    }
    false
}

/// Whether a path lies below another. A path is not below itself, and one that goes
/// up is below nothing.
pub fn is_strictly_under(path: &Vec<PathPart>, root: &Vec<PathPart>) -> (b: bool)
    ensures
        b == strictly_under(path_view(path@), path_view(root@)),
{
    if has_parent_dir(path) {
        return false;
    }
    path.len() > root.len() && prefix_is(path, root)
}

/// Whether one of the ways to write a path lies below one of the roots.
pub open spec fn under_any(ways: Seq<Seq<PartView>>, roots: Seq<Seq<PartView>>) -> bool {
    exists|i: int, j: int|
        0 <= i < ways.len() && 0 <= j < roots.len() && strictly_under(
            #[trigger] ways[i],
            #[trigger] roots[j],
        )
}

/// Whether a path is inside one of the directories that skills are looked for in,
/// given the ways to write the path and the ways to write the directories.
pub fn is_under_any_skills_root(ways: &Vec<Vec<PathPart>>, roots: &Vec<Vec<PathPart>>) -> (b: bool)
    ensures
        b == under_any(paths_view(ways@), paths_view(roots@)),
{
    let ghost w = paths_view(ways@);
    let ghost r = paths_view(roots@);
    let n: usize = ways.len();
    let m: usize = roots.len();
    for i in 0..n
        invariant
            n == ways@.len(),
            m == roots@.len(),
            w == paths_view(ways@),
            r == paths_view(roots@),
            forall|a: int, b: int|
                0 <= a < i && 0 <= b < m ==> !strictly_under(#[trigger] w[a], #[trigger] r[b]),
    {
        for j in 0..m
            invariant
                i < n == ways@.len(),
                m == roots@.len(),
                w == paths_view(ways@),
                r == paths_view(roots@),
                forall|a: int, b: int|
                    0 <= a < i && 0 <= b < m ==> !strictly_under(#[trigger] w[a], #[trigger] r[b]),
                forall|b: int| 0 <= b < j ==> !strictly_under(w[i as int], #[trigger] r[b]),
        {
            assert(w[i as int] == path_view(ways@[i as int]@));
            assert(r[j as int] == path_view(roots@[j as int]@));
            if is_strictly_under(&ways[i], &roots[j]) {
                assert(under_any(w, r));
                return true;
            }
        }
    }
    false
}

// ── Search paths ────────────────────────────────────────────────────────────

/// The paths with one more, unless it is among them.
pub open spec fn with_path(s: Seq<Seq<PartView>>, p: Seq<PartView>) -> Seq<Seq<PartView>> {
    if s.contains(p) {
        s
    } else {
        s.push(p)
    }
}

/// The paths with the first `n` of some others.
pub open spec fn with_paths(
    s: Seq<Seq<PartView>>,
    more: Seq<Seq<PartView>>,
    n: int,
) -> Seq<Seq<PartView>>
    decreases n,
{
    if n <= 0 {
        s
    } else {
        with_path(with_paths(s, more, n - 1), more[n - 1])
    }
}

/// The skills directory of a program below a directory.
pub open spec fn skills_below(base: Seq<PartView>, program: Seq<char>) -> Seq<PartView> {
    base.push(PartView::Normal(program)).push(PartView::Normal("skills"@))
}

/// The skills directory of the partner agent below a directory, where one is named.
pub open spec fn partner_paths(base: Seq<PartView>, partner: Seq<char>) -> Seq<Seq<PartView>> {
    if partner.len() == 0 {
        Seq::empty()
    } else {
        seq![skills_below(base, "."@ + partner)]
    }
}

/// The skills directories below the home directory, in order.
pub open spec fn home_paths(home: Seq<PartView>, partner: Seq<char>) -> Seq<Seq<PartView>> {
    seq![skills_below(home, ".agents"@)] + partner_paths(home, partner) + seq![
        skills_below(home, ".codex"@),
        skills_below(home, ".cursor"@),
        skills_below(home, ".grok"@),
    ]
}

/// The skills directories below a workspace, in order.
pub open spec fn workspace_paths(workspace: Seq<PartView>, partner: Seq<char>) -> Seq<
    Seq<PartView>,
> {
    seq![skills_below(workspace, ".dscode"@)] + partner_paths(workspace, partner) + seq![
        skills_below(workspace, ".agents"@),
        skills_below(workspace, ".cursor"@),
        skills_below(workspace, ".grok"@),
    ]
}

/// The directories that skills are looked for in, the most important first.
pub open spec fn search_path_list(
    default_dir: Seq<PartView>,
    extra: Seq<Seq<PartView>>,
    home: Option<Seq<PartView>>,
    workspace: Option<Seq<PartView>>,
    partner: Seq<char>,
) -> Seq<Seq<PartView>> {
    let a = with_paths(with_path(Seq::empty(), default_dir), extra, extra.len() as int);
    let b = match home {
        Some(h) => with_paths(a, home_paths(h, partner), home_paths(h, partner).len() as int),
        None => a,
    };
    match workspace {
        Some(w) => with_paths(b, workspace_paths(w, partner), workspace_paths(w, partner).len() as int),
        None => b,
    }
}

/// The value of an optional path.
pub open spec fn opt_path(o: Option<Vec<PathPart>>) -> Option<Seq<PartView>> {
    match o {
        Some(v) => Some(path_view(v@)),
        None => None,
    }
}

/// Copies a path.
pub fn copy_path(v: &Vec<PathPart>) -> (r: Vec<PathPart>)
    ensures
        path_view(r@) == path_view(v@),
{
    let ghost s = path_view(v@);
    let n: usize = v.len();
    let mut r: Vec<PathPart> = Vec::new();
    assert(path_view(r@) =~= s.take(0));
    for i in 0..n
        invariant
            n == v@.len(),
            s == path_view(v@),
            path_view(r@) == s.take(i as int),
    {
        let p = v[i].clone();
        proof {
            assert(path_view(r@.push(p)) =~= path_view(r@).push(p@));
            assert(s.take(i + 1) =~= s.take(i as int).push(s[i as int]));
        }
        r.push(p);
    }
    assert(s.take(n as int) =~= s);
    r
}

fn below(base: &Vec<PathPart>, program: &str) -> (r: Vec<PathPart>)
    ensures
        path_view(r@) == skills_below(path_view(base@), program@),
{
    let mut r = copy_path(base);
    r.push(PathPart::Normal(program.to_string()));
    r.push(PathPart::Normal("skills".to_string()));
    assert(path_view(r@) =~= skills_below(path_view(base@), program@));
    r
}

fn add_path(paths: &mut Vec<Vec<PathPart>>, p: Vec<PathPart>)
    ensures
        paths_view(final(paths)@) == with_path(paths_view(old(paths)@), path_view(p@)),
{
    let ghost s = paths_view(paths@);
    let n: usize = paths.len();
    for i in 0..n
        invariant
            n == paths@.len(),
            s == paths_view(paths@),
            *paths == *old(paths),
            forall|k: int| 0 <= k < i ==> #[trigger] s[k] != path_view(p@),
    {
        assert(s[i as int] == path_view(paths@[i as int]@));
        if same_path(&paths[i], &p) {
            assert(s.contains(path_view(p@)));
            return;
        }
    }
    assert(!s.contains(path_view(p@)));
    paths.push(p);
    assert(paths_view(paths@) =~= s.push(path_view(p@)));
}

impl SkillLoader {
    /// The program's own directory for skills, below its data directory; below the
    /// present directory where there is none.
    pub fn default_skills_dir(data_dir: &Option<Vec<PathPart>>) -> (r: Vec<PathPart>)
        ensures
            path_view(r@) == (match data_dir {
                Some(d) => path_view(d@).push(PartView::Normal("skills"@)),
                None => seq![PartView::CurDir, PartView::Normal("skills"@)],
            }),
    {
        let mut r: Vec<PathPart> = match data_dir {
            Some(d) => copy_path(d),
            None => {
                let mut here: Vec<PathPart> = Vec::new();
                here.push(PathPart::CurDir);
                assert(path_view(here@) =~= seq![PartView::CurDir]);
                here
            },
        };
        let ghost base = path_view(r@);
        r.push(PathPart::Normal("skills".to_string()));
        assert(path_view(r@) =~= base.push(PartView::Normal("skills"@)));
        r
    }

    /// The directories that skills are looked for in, the most important first: the
    /// program's own, those of the settings, those below the home directory, and those
    /// below the workspace. None is listed twice.
    pub fn search_paths(
        default_dir: &Vec<PathPart>,
        extra: &Vec<Vec<PathPart>>,
        home: &Option<Vec<PathPart>>,
        workspace: &Option<Vec<PathPart>>,
        partner: &str,
    ) -> (r: Vec<Vec<PathPart>>)
        ensures
            paths_view(r@) == search_path_list(
                path_view(default_dir@),
                paths_view(extra@),
                opt_path(*home),
                opt_path(*workspace),
                partner@,
            ),
    {
        let mut r: Vec<Vec<PathPart>> = Vec::new();
        assert(paths_view(r@) =~= Seq::empty());
        add_path(&mut r, copy_path(default_dir));
        let ghost first = paths_view(r@);
        let ghost more = paths_view(extra@);
        let n: usize = extra.len();
        for i in 0..n
            invariant
                n == extra@.len(),
                more == paths_view(extra@),
                paths_view(r@) == with_paths(first, more, i as int),
        {
            assert(more[i as int] == path_view(extra@[i as int]@));
            add_path(&mut r, copy_path(&extra[i]));
        }
        if let Some(h) = home {
            let ghost a = paths_view(r@);
            let ghost hp = home_paths(path_view(h@), partner@);
            add_path(&mut r, below(h, ".agents"));
            if !partner.is_empty() {
                add_path(&mut r, below(h, cat2(".", partner).as_str()));
            }
            add_path(&mut r, below(h, ".codex"));
            add_path(&mut r, below(h, ".cursor"));
            add_path(&mut r, below(h, ".grok"));
            proof {
                reveal_with_fuel(with_paths, 6);
                assert(paths_view(r@) == with_paths(a, hp, hp.len() as int));
            }
        }
        if let Some(w) = workspace {
            let ghost b = paths_view(r@);
            let ghost wp = workspace_paths(path_view(w@), partner@);
            add_path(&mut r, below(w, ".dscode"));
            if !partner.is_empty() {
                add_path(&mut r, below(w, cat2(".", partner).as_str()));
            }
            add_path(&mut r, below(w, ".agents"));
            add_path(&mut r, below(w, ".cursor"));
            add_path(&mut r, below(w, ".grok"));
            proof {
                reveal_with_fuel(with_paths, 6);
                assert(paths_view(r@) == with_paths(b, wp, wp.len() as int));
            }
        }
        r
    }
}

// ── Laws ────────────────────────────────────────────────────────────────────

/// A directory is not below itself, so a directory that skills are looked for in can
/// never be what is deleted in it; and a path that goes up is below nothing.
pub proof fn law_root_is_not_under_itself(path: Seq<PartView>, root: Seq<PartView>)
    ensures
        !strictly_under(root, root),
        goes_up(path) ==> !strictly_under(path, root),
        strictly_under(path, root) ==> path != root,
{
}

/// No two of the listed paths are the same.
pub open spec fn all_different(s: Seq<Seq<PartView>>) -> bool {
    forall|i: int, j: int| 0 <= i < j < s.len() ==> #[trigger] s[i] != #[trigger] s[j]
}

proof fn lemma_with_paths_different(s: Seq<Seq<PartView>>, more: Seq<Seq<PartView>>, n: int)
    requires
        all_different(s),
        0 <= n <= more.len(),
    ensures
        all_different(with_paths(s, more, n)),
        s.len() <= with_paths(s, more, n).len(),
        with_paths(s, more, n).take(s.len() as int) == s,
    decreases n,
{
    if n > 0 {
        lemma_with_paths_different(s, more, n - 1);
        let front = with_paths(s, more, n - 1);
        let all = with_paths(s, more, n);
        assert(all.take(s.len() as int) =~= front.take(s.len() as int));
        assert forall|i: int, j: int| 0 <= i < j < all.len() implies #[trigger] all[i]
            != #[trigger] all[j] by {
            assert(front[i] == all[i]);
            if j < front.len() {
                assert(front[j] == all[j]);
            } else {
                assert(front.contains(front[i]));
            }
        }
    } else {
        assert(s.take(s.len() as int) =~= s);
    }
}

/// No directory is searched twice, and the program's own comes first.
pub proof fn law_search_paths_are_distinct(
    default_dir: Seq<PartView>,
    extra: Seq<Seq<PartView>>,
    home: Option<Seq<PartView>>,
    workspace: Option<Seq<PartView>>,
    partner: Seq<char>,
)
    ensures
        all_different(search_path_list(default_dir, extra, home, workspace, partner)),
        search_path_list(default_dir, extra, home, workspace, partner).len() > 0,
        search_path_list(default_dir, extra, home, workspace, partner)[0] == default_dir,
{
    let z = with_path(Seq::empty(), default_dir);
    let a = with_paths(z, extra, extra.len() as int);
    lemma_with_paths_different(z, extra, extra.len() as int);
    assert(a[0] == a.take(1)[0]);
    let b = match home {
        Some(h) => with_paths(a, home_paths(h, partner), home_paths(h, partner).len() as int),
        None => a,
    };
    if home is Some {
        let hp = home_paths(home->0, partner);
        lemma_with_paths_different(a, hp, hp.len() as int);
        assert(b.take(a.len() as int)[0] == b[0]);
    }
    if workspace is Some {
        let wp = workspace_paths(workspace->0, partner);
        lemma_with_paths_different(b, wp, wp.len() as int);
        let c = with_paths(b, wp, wp.len() as int);
        assert(c.take(b.len() as int)[0] == c[0]);
    }
}

proof fn lemma_with_paths_has(
    s: Seq<Seq<PartView>>,
    more: Seq<Seq<PartView>>,
    n: int,
    p: Seq<PartView>,
)
    requires
        0 <= n <= more.len(),
    ensures
        with_paths(s, more, n).contains(p) <==> s.contains(p) || more.take(n).contains(p),
    decreases n,
{
    if n > 0 {
        lemma_with_paths_has(s, more, n - 1, p);
        let front = with_paths(s, more, n - 1);
        let all = with_paths(s, more, n);
        let x = more[n - 1];
        assert(more.take(n) =~= more.take(n - 1).push(x));
        assert(more.take(n)[n - 1] == x);
        if front.contains(p) {
            let k = choose|k: int| 0 <= k < front.len() && front[k] == p;
            assert(all[k] == p);
        }
        if !front.contains(x) {
            assert(all[front.len() as int] == x);
        }
        if all.contains(p) && p != x {
            let k = choose|k: int| 0 <= k < all.len() && all[k] == p;
            assert(front[k] == p);
        }
        if more.take(n - 1).contains(p) {
            let k = choose|k: int| 0 <= k < n - 1 && #[trigger] more.take(n - 1)[k] == p;
            assert(more.take(n)[k] == p);
        }
        if more.take(n).contains(p) && p != x {
            let k = choose|k: int| 0 <= k < n && #[trigger] more.take(n)[k] == p;
            assert(more.take(n - 1)[k] == p);
        }
    } else {
        assert(more.take(0) =~= Seq::<Seq<PartView>>::empty());
    }
}

/// Skills are looked for in the default directory, in every directory that was added, and in
/// the usual places below the home and the workspace, and nowhere else.
pub proof fn law_every_place_is_searched(
    default_dir: Seq<PartView>,
    extra: Seq<Seq<PartView>>,
    home: Option<Seq<PartView>>,
    workspace: Option<Seq<PartView>>,
    partner: Seq<char>,
    p: Seq<PartView>,
)
    ensures
        search_path_list(default_dir, extra, home, workspace, partner).contains(p) <==> {
            ||| p == default_dir
            ||| extra.contains(p)
            ||| (home matches Some(h) && home_paths(h, partner).contains(p))
            ||| (workspace matches Some(w) && workspace_paths(w, partner).contains(p))
        },
{
    let start = with_path(Seq::empty(), default_dir);
    assert(start =~= seq![default_dir]);
    assert(start[0] == default_dir);
    assert(start.contains(p) <==> p == default_dir);
    lemma_with_paths_has(start, extra, extra.len() as int, p);
    assert(extra.take(extra.len() as int) =~= extra);
    let a = with_paths(start, extra, extra.len() as int);
    let b = match home {
        Some(h) => with_paths(a, home_paths(h, partner), home_paths(h, partner).len() as int),
        None => a,
    };
    if let Some(h) = home {
        let m = home_paths(h, partner);
        lemma_with_paths_has(a, m, m.len() as int, p);
        assert(m.take(m.len() as int) =~= m);
    }
    if let Some(w) = workspace {
        let m = workspace_paths(w, partner);
        lemma_with_paths_has(b, m, m.len() as int, p);
        assert(m.take(m.len() as int) =~= m);
    }
}

} // verus!
