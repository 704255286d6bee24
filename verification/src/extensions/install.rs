//! Installing skills from a repository.
//!
//! [`InstallRun`] says what to do next, from the clone of a repository to the report,
//! and takes what came of it. A package that is already there is replaced only where
//! the repository has moved on since, and what was there is kept.

use crate::config::settings;
use crate::config::settings::{apply_proxy_env, EnvChange};
use crate::extensions::naming;
use crate::extensions::naming::{parse_github_spec, sanitize_skill_name};
use crate::extensions::paths;
use crate::extensions::paths::{prefix_is, PathPart};
use crate::extensions::skills::SkillLoader;
use crate::text;
use crate::text::{
    cat2, cat3, chars_of, copy_option, decimal, join, same, take_chars, take_last, trim, trimmed,
};
use vstd::prelude::*;
use vstd::string::*;

verus! {

/// How many seconds a clone may take.
pub const GIT_CLONE_TIMEOUT_SECS: u64 = 180;

/// How many seconds a question about a clone may take.
pub const GIT_META_TIMEOUT_SECS: u64 = 30;

/// The file that records where a package came from.
pub const INSTALL_MARKER: &'static str = ".dscode-install.json";

// ── Texts ───────────────────────────────────────────────────────────────────

/// The last 400 characters of what a command said, on a line of their own.
pub open spec fn tail_of(s: Seq<char>) -> Seq<char> {
    let t = text::trim_of(s);
    if t.len() == 0 {
        Seq::empty()
    } else {
        "\n"@ + text::last_chars(t, 400)
    }
}

/// The last 400 characters of what a command said, on a line of their own.
pub fn tail_suffix(s: &str) -> (r: String)
    ensures
        r@ == tail_of(s@),
{
    let all = chars_of(s);
    let t = trim(all.as_slice());
    if t.len() == 0 {
        return String::new();
    }
    cat2("\n", take_last(t, 400).as_str())
}

/// The first eight characters of a revision.
pub fn short_commit(c: &str) -> (r: String)
    ensures
        r@ == text::first_chars(c@, 8),
{
    take_chars(c, 8)
}

/// The name of the directory that a package is kept in when it is replaced: with a
/// number from the second try on.
pub fn backup_name(safe_name: &str, stamp: &str, attempt: u32) -> (r: String)
    ensures
        r@ == (if attempt == 0 {
            safe_name@ + "-"@ + stamp@
        } else {
            safe_name@ + "-"@ + stamp@ + "-"@ + text::dec(attempt as nat)
        }),
{
    let base = cat3(safe_name, "-", stamp);
    if attempt == 0 {
        base
    } else {
        base.concat("-").concat(decimal(attempt as u64).as_str())
    }
}

/// Whether another name is tried for the directory that a package is kept in: up to
/// a hundred, while there is something of the name.
pub fn next_backup(attempt: u32, present: bool) -> (r: Option<u32>)
    ensures
        r == (if present && attempt < 100 {
            Some((attempt + 1) as u32)
        } else {
            None
        }),
{
    if present && attempt < 100 {
        Some(attempt + 1)
    } else {
        None
    }
}

// ── Git ─────────────────────────────────────────────────────────────────────

/// What the environment of a git process holds besides the proxy: it must ask for
/// nothing.
pub open spec fn silent_git() -> Seq<settings::EnvChangeView> {
    seq![
        settings::EnvChangeView::Assign("GIT_TERMINAL_PROMPT"@, "0"@),
        settings::EnvChangeView::Assign("GIT_ASKPASS"@, ""@),
        settings::EnvChangeView::Assign("SSH_ASKPASS"@, ""@),
        settings::EnvChangeView::Assign("GCM_INTERACTIVE"@, "never"@),
    ]
}

/// The changes to the environment of a git process. The proxy is left as it is
/// where the settings could not be read.
pub fn git_env(proxy: &Option<Option<String>>) -> (r: Vec<EnvChange>)
    ensures
        settings::changes(r@) == silent_git() + (match *proxy {
            Some(p) => settings::proxy_changes(text::opt_text(p)),
            None => Seq::empty(),
        }),
{
    let mut r: Vec<EnvChange> = vec![
        EnvChange::Assign("GIT_TERMINAL_PROMPT".to_string(), "0".to_string()),
        EnvChange::Assign("GIT_ASKPASS".to_string(), "".to_string()),
        EnvChange::Assign("SSH_ASKPASS".to_string(), "".to_string()),
        EnvChange::Assign("GCM_INTERACTIVE".to_string(), "never".to_string()),
    ];
    assert(settings::changes(r@) =~= silent_git());
    if let Some(p) = proxy {
        let mut more = apply_proxy_env(p);
        let ghost a = r@;
        let ghost b = more@;
        r.append(&mut more);
        assert(settings::changes(r@) =~= settings::changes(a) + settings::changes(b));
    }
    assert(settings::changes(r@) =~= silent_git() + (match *proxy {
        Some(p) => settings::proxy_changes(text::opt_text(p)),
        None => Seq::empty(),
    }));
    r
}

/// The arguments of git that clone the last revision of a repository into a
/// directory.
pub fn clone_args(url: &str, dir: &str) -> (r: Vec<String>)
    ensures
        text::texts(r@) == seq!["clone"@, "--depth"@, "1"@, "--quiet"@, url@, dir@],
{
    let r: Vec<String> = vec![
        "clone".to_string(),
        "--depth".to_string(),
        "1".to_string(),
        "--quiet".to_string(),
        url.to_string(),
        dir.to_string(),
    ];
    assert(text::texts(r@) =~= seq!["clone"@, "--depth"@, "1"@, "--quiet"@, url@, dir@]);
    r
}

/// What is said of a git command that took too long.
pub fn git_timed_out(command: &str, seconds: u64, said: &str) -> (r: String)
    ensures
        r@ == "git "@ + command@ + " 超时（"@ + text::dec(seconds as nat) + "s）"@ + tail_of(said@),
{
    cat3("git ", command, " 超时（").concat(decimal(seconds).as_str()).concat("s）").concat(
        tail_suffix(said).as_str(),
    )
}

// ── The run ─────────────────────────────────────────────────────────────────

/// What came of an installation.
#[derive(Debug)]
pub struct InstallReport {
    pub spec: String,
    pub installed: Vec<String>,
    pub skipped: Vec<String>,
    pub source_dir: String,
    pub target_dir: String,
    pub message: String,
}

/// An installation.
#[derive(Debug)]
pub struct InstallRun {
    spec: String,
    owner: String,
    repo: String,
    path: Option<String>,
    commit: Option<String>,
    packages: Vec<String>,
    next: usize,
    note: String,
    installed: Vec<String>,
    skipped: Vec<String>,
}

/// An installation as a value.
#[verifier::ext_equal]
pub struct InstallView {
    pub spec: Seq<char>,
    pub owner: Seq<char>,
    pub repo: Seq<char>,
    /// The path in the repository.
    pub path: Option<Seq<char>>,
    /// The revision of the repository, where it is known.
    pub commit: Option<Seq<char>>,
    /// The names of the packages in the repository.
    pub packages: Seq<Seq<char>>,
    /// The package that is being installed.
    pub next: int,
    /// What will be said of it where it takes the place of another.
    pub note: Seq<char>,
    pub installed: Seq<Seq<char>>,
    pub skipped: Seq<Seq<char>>,
}

impl InstallView {
    /// Every package up to the present one has been reported.
    pub open spec fn wf(self) -> bool {
        &&& 0 <= self.next <= self.packages.len() <= usize::MAX
        &&& self.installed.len() + self.skipped.len() == self.next
    }
}

impl View for InstallRun {
    type V = InstallView;

    closed spec fn view(&self) -> InstallView {
        InstallView {
            spec: self.spec@,
            owner: self.owner@,
            repo: self.repo@,
            path: text::opt_text(self.path),
            commit: text::opt_text(self.commit),
            packages: text::texts(self.packages@),
            next: self.next as int,
            note: self.note@,
            installed: text::texts(self.installed@),
            skipped: text::texts(self.skipped@),
        }
    }
}

/// The installation that a spec asks for, or what is wrong with it.
pub open spec fn install_start(spec: Seq<char>) -> Result<InstallView, Seq<char>> {
    let s = text::trim_of(spec);
    if s.len() == 0 {
        Err("请提供包标识，例如 vercel-labs/agent-skills 或 owner/repo/skill-name"@)
    } else {
        match naming::github_spec(s) {
            Ok(g) => Ok(
                InstallView {
                    spec: s,
                    owner: g.owner,
                    repo: g.repo,
                    path: g.path,
                    commit: None,
                    packages: Seq::empty(),
                    next: 0,
                    note: ""@,
                    installed: Seq::empty(),
                    skipped: Seq::empty(),
                },
            ),
            Err(e) => Err(e),
        }
    }
}

/// Where the packages come from.
pub open spec fn source_of(v: InstallView) -> Seq<char> {
    "github.com/"@ + v.owner + "/"@ + v.repo
}

/// The address to clone.
pub open spec fn url_of(v: InstallView) -> Seq<char> {
    "https://github.com/"@ + v.owner + "/"@ + v.repo + ".git"@
}

/// The revision of a clone in what a command said.
pub open spec fn revision_of(out: Option<Seq<char>>) -> Option<Seq<char>> {
    match out {
        Some(s) => if text::trim_of(s).len() > 0 {
            Some(text::trim_of(s))
        } else {
            None
        },
        None => None,
    }
}

/// The name of a package, given what it could be called: its own name, else its own
/// name with that of the owner, else a word; the latter two with a number.
pub open spec fn package_name_of(
    first: Result<Seq<char>, Seq<char>>,
    second: Result<Seq<char>, Seq<char>>,
    count: nat,
) -> Seq<char> {
    match first {
        Ok(s) => s,
        Err(_) => (match second {
            Ok(s) => s,
            Err(_) => "skill"@,
        }) + "-"@ + text::dec(count),
    }
}

/// What becomes of a package that is already there.
#[derive(Debug, PartialEq, Eq)]
pub enum Existing {
    /// It stays.
    Keep,
    /// It is put aside and replaced, with this said of it.
    Replace(String),
}

/// What becomes of a package that is already there, as a value.
#[verifier::ext_equal]
pub enum ExistingView {
    Keep,
    Replace(Seq<char>),
}

impl View for Existing {
    type V = ExistingView;

    open spec fn view(&self) -> ExistingView {
        match self {
            Existing::Keep => ExistingView::Keep,
            Existing::Replace(s) => ExistingView::Replace(s@),
        }
    }
}

/// What becomes of a package that is already there, by the revision it came from and
/// the present one: it stays where both are known and the same.
pub open spec fn existing_package(
    previous: Option<Seq<char>>,
    current: Option<Seq<char>>,
) -> ExistingView {
    match (previous, current) {
        (Some(p), Some(c)) => if p == c {
            ExistingView::Keep
        } else {
            ExistingView::Replace(
                "已更新 "@ + text::first_chars(p, 8) + " → "@ + text::first_chars(c, 8),
            )
        },
        (None, Some(c)) => ExistingView::Replace(
            "已安装 "@ + text::first_chars(c, 8) + "（原本地副本没有安装记录，来源未知）"@,
        ),
        _ => ExistingView::Replace("已覆盖（无法确定远端版本）"@),
    }
}

/// What is said of a package that stays.
pub open spec fn kept_text(safe: Seq<char>, current: Option<Seq<char>>) -> Seq<char> {
    safe + " (远端仍是已安装的版本 "@ + text::first_chars(
        match current {
            Some(c) => c,
            None => Seq::empty(),
        },
        8,
    ) + "，未覆盖，保留本地修改)"@
}

/// What is said of a package that was replaced.
pub open spec fn replaced_text(safe: Seq<char>, note: Seq<char>, backup: Seq<char>) -> Seq<char> {
    safe + " ("@ + note + "；本地旧副本已备份到 "@ + backup + ")"@
}

/// One line of the report for each package.
pub open spec fn report_lines(s: Seq<Seq<char>>) -> Seq<Seq<char>> {
    s.map_values(|n: Seq<char>| "  - "@ + n)
}

/// What is said of an installation.
pub open spec fn message_of(v: InstallView, target_dir: Seq<char>) -> Seq<char> {
    if v.installed.len() == 0 {
        "未新装技能（"@ + text::dec(v.skipped.len()) + " 个已存在）。可用 skills 目录: "@ + target_dir
    } else {
        "已安装 "@ + text::dec(v.installed.len()) + " 个 skill 到 "@ + target_dir + ":\n"@
            + text::joined(report_lines(v.installed), "\n"@)
    }
}

// ── The steps ───────────────────────────────────────────────────────────────

/// What to do next.
#[derive(Debug)]
pub enum InstallStep {
    /// Clone the repository at an address.
    Clone(String),
    /// Find a path in the clone.
    Resolve(String),
    /// Ask for the revision of the clone.
    Revise,
    /// List the packages in the clone.
    Search,
    /// Look what is installed under a name.
    Inspect { package: usize, safe: String },
    /// Copy a package to where nothing is, and record its revision where there is one.
    Copy { package: usize, safe: String, record: Option<String> },
    /// Put aside what is there, copy a package to its place, and record its revision
    /// where there is one.
    Replace { package: usize, safe: String, record: Option<String> },
    /// Report.
    Finish,
    /// Give up.
    Failed(String),
}

/// What to do next, as a value.
#[verifier::ext_equal]
pub ghost enum InstallStepView {
    Clone(Seq<char>),
    Resolve(Seq<char>),
    Revise,
    Search,
    Inspect { package: int, safe: Seq<char> },
    Copy { package: int, safe: Seq<char>, record: Option<Seq<char>> },
    Replace { package: int, safe: Seq<char>, record: Option<Seq<char>> },
    Finish,
    Failed(Seq<char>),
}

impl View for InstallStep {
    type V = InstallStepView;

    open spec fn view(&self) -> InstallStepView {
        match self {
            InstallStep::Clone(s) => InstallStepView::Clone(s@),
            InstallStep::Resolve(s) => InstallStepView::Resolve(s@),
            InstallStep::Revise => InstallStepView::Revise,
            InstallStep::Search => InstallStepView::Search,
            InstallStep::Inspect { package, safe } => InstallStepView::Inspect {
                package: *package as int,
                safe: safe@,
            },
            InstallStep::Copy { package, safe, record } => InstallStepView::Copy {
                package: *package as int,
                safe: safe@,
                record: text::opt_text(*record),
            },
            InstallStep::Replace { package, safe, record } => InstallStepView::Replace {
                package: *package as int,
                safe: safe@,
                record: text::opt_text(*record),
            },
            InstallStep::Finish => InstallStepView::Finish,
            InstallStep::Failed(e) => InstallStepView::Failed(e@),
        }
    }
}

/// What became of a clone: whether git succeeded, and what it said.
#[derive(Debug)]
pub enum Cloned {
    /// Git could not be run to its end.
    Unfinished(String),
    /// Git failed, saying this.
    Refused(String),
    /// The clone is there.
    Done,
}

/// What was found at a path in the clone.
#[derive(Debug)]
pub enum Resolved {
    /// Nothing.
    Missing,
    /// The clone itself could not be looked up.
    CloneUnknown(String),
    /// The path could not be looked up.
    PathUnknown(String),
    /// Where the clone and the path really are, and how the path is written.
    At { clone: Vec<PathPart>, path: Vec<PathPart>, shown: String },
}

/// What is installed under a name.
#[derive(Debug)]
pub enum Present {
    /// Nothing.
    Nothing,
    /// A package, with the revision that was recorded of it.
    Package(Option<String>),
}

/// What is installed under a name, as a value.
#[verifier::ext_equal]
pub ghost enum PresentView {
    Nothing,
    Package(Option<Seq<char>>),
}

impl View for Present {
    type V = PresentView;

    open spec fn view(&self) -> PresentView {
        match self {
            Present::Nothing => PresentView::Nothing,
            Present::Package(previous) => PresentView::Package(text::opt_text(*previous)),
        }
    }
}

/// What is said where the repository could not be cloned.
pub open spec fn clone_failed_text(v: InstallView, said: Seq<char>) -> Seq<char> {
    "git clone 失败: "@ + url_of(v) + tail_of(said)
        + "\n请检查网络与仓库是否存在，或手动: npx skills add "@ + v.owner + "/"@ + v.repo
}

/// What is said where the repository holds no package.
pub open spec fn no_packages_text(v: InstallView) -> Seq<char> {
    "在 "@ + v.owner + "/"@ + v.repo + (match v.path {
        Some(p) => "/"@ + p,
        None => Seq::empty(),
    }) + " 中未找到 SKILL.md 技能包"@
}

/// What follows a clone.
pub open spec fn after_clone(v: InstallView, c: Cloned) -> InstallStepView {
    match c {
        Cloned::Unfinished(e) => InstallStepView::Failed(e@),
        Cloned::Refused(said) => InstallStepView::Failed(clone_failed_text(v, said@)),
        Cloned::Done => match v.path {
            Some(p) => InstallStepView::Resolve(p),
            None => InstallStepView::Revise,
        },
    }
}

/// What follows the search for a path: one that leads out of the clone is refused.
pub open spec fn after_resolve(path: Seq<char>, r: Resolved) -> InstallStepView {
    match r {
        Resolved::Missing => InstallStepView::Failed("仓库内找不到路径: "@ + path),
        Resolved::CloneUnknown(e) => InstallStepView::Failed("无法解析仓库目录: "@ + e@),
        Resolved::PathUnknown(e) => InstallStepView::Failed(
            "无法解析路径 "@ + path + ": "@ + e@,
        ),
        Resolved::At { clone, path: at, shown } => if paths::starts_with(
            paths::path_view(at@),
            paths::path_view(clone@),
        ) {
            InstallStepView::Revise
        } else {
            InstallStepView::Failed(
                "拒绝安装：路径 `"@ + path + "` 逃出了仓库目录（"@ + shown@ + "）"@,
            )
        },
    }
}

/// The name under which the present package is installed.
pub open spec fn safe_of(v: InstallView) -> Seq<char> {
    let name = v.packages[v.next];
    package_name_of(
        naming::sanitized(name),
        naming::sanitized(v.owner + "-"@ + name),
        v.next as nat,
    )
}

/// What comes next in the list of packages.
pub open spec fn turn_to(v: InstallView) -> InstallStepView {
    if v.next < v.packages.len() {
        InstallStepView::Inspect { package: v.next, safe: safe_of(v) }
    } else {
        InstallStepView::Finish
    }
}

/// The installation with the packages of the repository.
pub open spec fn listed(v: InstallView, names: Seq<Seq<char>>) -> InstallView {
    InstallView {
        packages: names,
        next: 0,
        installed: Seq::empty(),
        skipped: Seq::empty(),
        ..v
    }
}

/// What follows the list of packages.
pub open spec fn after_search(v: InstallView, names: Seq<Seq<char>>) -> InstallStepView {
    if names.len() == 0 {
        InstallStepView::Failed(no_packages_text(v))
    } else {
        turn_to(listed(v, names))
    }
}

/// The installation after a package of which a line is reported as skipped.
pub open spec fn with_skipped(v: InstallView, line: Seq<char>) -> InstallView {
    InstallView { skipped: v.skipped.push(line), next: v.next + 1, ..v }
}

/// The installation after a package of which a line is reported as installed.
pub open spec fn with_installed(v: InstallView, line: Seq<char>) -> InstallView {
    InstallView { installed: v.installed.push(line), next: v.next + 1, ..v }
}

/// What follows a look at what is installed under the name of a package.
pub open spec fn after_inspect(v: InstallView, p: PresentView) -> (InstallView, InstallStepView) {
    match p {
        PresentView::Nothing => (
            v,
            InstallStepView::Copy { package: v.next, safe: safe_of(v), record: v.commit },
        ),
        PresentView::Package(previous) => match existing_package(previous, v.commit) {
            ExistingView::Keep => {
                let w = with_skipped(v, kept_text(safe_of(v), v.commit));
                (w, turn_to(w))
            },
            ExistingView::Replace(note) => (
                InstallView { note, ..v },
                InstallStepView::Replace { package: v.next, safe: safe_of(v), record: v.commit },
            ),
        },
    }
}

/// What follows a copy.
pub open spec fn after_copy(v: InstallView, failed: Option<Seq<char>>) -> (
    InstallView,
    InstallStepView,
) {
    match failed {
        Some(e) => (v, InstallStepView::Failed(e)),
        None => {
            let w = with_installed(v, safe_of(v));
            (w, turn_to(w))
        },
    }
}

/// What follows a replacement, given where the earlier package went.
pub open spec fn after_replace(v: InstallView, backup: Result<Seq<char>, Seq<char>>) -> (
    InstallView,
    InstallStepView,
) {
    match backup {
        Err(e) => (v, InstallStepView::Failed(e)),
        Ok(b) => {
            let w = with_installed(v, replaced_text(safe_of(v), v.note, b));
            (w, turn_to(w))
        },
    }
}

/// Decides what becomes of a package that is already there.
pub fn decide_existing(previous: &Option<String>, current: &Option<String>) -> (r: Existing)
    ensures
        r@ == existing_package(text::opt_text(*previous), text::opt_text(*current)),
{
    match (previous, current) {
        (Some(p), Some(c)) => if same(p.as_str(), c.as_str()) {
            Existing::Keep
        } else {
            Existing::Replace(
                cat3("已更新 ", short_commit(p.as_str()).as_str(), " → ").concat(
                    short_commit(c.as_str()).as_str(),
                ),
            )
        },
        (None, Some(c)) => Existing::Replace(
            cat3("已安装 ", short_commit(c.as_str()).as_str(), "（原本地副本没有安装记录，来源未知）"),
        ),
        _ => Existing::Replace("已覆盖（无法确定远端版本）".to_string()),
    }
}

/// Chooses the name of a package among what it could be called.
pub fn choose_package_name(
    first: Result<String, String>,
    second: Result<String, String>,
    count: usize,
) -> (r: String)
    ensures
        r@ == package_name_of(
            naming::result_text(first),
            naming::result_text(second),
            count as nat,
        ),
{
    match first {
        Ok(s) => s,
        Err(_) => {
            let base = match second {
                Ok(s) => s,
                Err(_) => "skill".to_string(),
            };
            base.concat("-").concat(decimal(count as u64).as_str())
        },
    }
}

impl SkillLoader {
    /// Begins an installation from `owner/repo`, `owner/repo/path` or an address on
    /// GitHub.
    pub fn install_from_spec(spec: &str) -> (r: Result<InstallRun, String>)
        ensures
            match r {
                Ok(run) => run@.wf() && install_start(spec@) == Ok::<InstallView, Seq<char>>(
                    run@,
                ),
                Err(e) => install_start(spec@) == Err::<InstallView, Seq<char>>(e@),
            },
    {
        let s = trimmed(spec);
        if s.as_str().is_empty() {
            return Err(
                "请提供包标识，例如 vercel-labs/agent-skills 或 owner/repo/skill-name".to_string(),
            );
        }
        match parse_github_spec(s.as_str()) {
            Ok(g) => {
                let run = InstallRun {
                    spec: s,
                    owner: g.owner,
                    repo: g.repo,
                    path: g.path,
                    commit: None,
                    packages: Vec::new(),
                    next: 0,
                    note: "".to_string(),
                    installed: Vec::new(),
                    skipped: Vec::new(),
                };
                assert(run@.packages =~= Seq::empty());
                assert(run@.installed =~= Seq::empty());
                assert(run@.skipped =~= Seq::empty());
                Ok(run)
            },
            Err(e) => Err(e),
        }
    }
}

impl InstallRun {
    fn url(&self) -> (r: String)
        ensures
            r@ == url_of(self@),
    {
        cat3("https://github.com/", self.owner.as_str(), "/").concat(self.repo.as_str()).concat(
            ".git",
        )
    }

    /// Where the packages come from.
    pub fn source(&self) -> (r: String)
        ensures
            r@ == source_of(self@),
    {
        cat3("github.com/", self.owner.as_str(), "/").concat(self.repo.as_str())
    }

    /// Begins with the clone.
    pub fn begin(&self) -> (r: InstallStep)
        ensures
            r@ == InstallStepView::Clone(url_of(self@)),
    {
        InstallStep::Clone(self.url())
    }

    /// Goes on after the clone.
    pub fn on_cloned(&self, cloned: Cloned) -> (r: InstallStep)
        ensures
            r@ == after_clone(self@, cloned),
    {
        match cloned {
            Cloned::Unfinished(e) => InstallStep::Failed(e),
            Cloned::Refused(said) => InstallStep::Failed(
                cat3("git clone 失败: ", self.url().as_str(), tail_suffix(said.as_str()).as_str()).concat(
                    "\n请检查网络与仓库是否存在，或手动: npx skills add ",
                ).concat(self.owner.as_str()).concat("/").concat(self.repo.as_str()),
            ),
            Cloned::Done => match &self.path {
                Some(p) => InstallStep::Resolve(p.clone()),
                None => InstallStep::Revise,
            },
        }
    }

    /// Goes on after the search for a path in the clone.
    pub fn on_resolved(path: &str, found: Resolved) -> (r: InstallStep)
        ensures
            r@ == after_resolve(path@, found),
    {
        match found {
            Resolved::Missing => InstallStep::Failed(cat2("仓库内找不到路径: ", path)),
            Resolved::CloneUnknown(e) => InstallStep::Failed(
                cat2("无法解析仓库目录: ", e.as_str()),
            ),
            Resolved::PathUnknown(e) => InstallStep::Failed(
                cat3("无法解析路径 ", path, ": ").concat(e.as_str()),
            ),
            Resolved::At { clone, path: at, shown } => if prefix_is(&at, &clone) {
                InstallStep::Revise
            } else {
                InstallStep::Failed(
                    cat3("拒绝安装：路径 `", path, "` 逃出了仓库目录（").concat(shown.as_str()).concat(
                        "）",
                    ),
                )
            },
        }
    }

    /// Takes what git said of the revision of the clone; nothing where it failed.
    pub fn on_revision(&mut self, out: Option<String>) -> (r: InstallStep)
        ensures
            final(self)@ == (InstallView {
                commit: revision_of(text::opt_text(out)),
                ..old(self)@
            }),
            r@ == InstallStepView::Search,
    {
        let ghost v = self@;
        self.commit = match out {
            Some(s) => {
                let t = trimmed(s.as_str());
                if t.as_str().is_empty() {
                    None
                } else {
                    Some(t)
                }
            },
            None => None,
        };
        assert(self@ =~= InstallView { commit: self@.commit, ..v });
        InstallStep::Search
    }

    fn safe_name(&self) -> (r: String)
        requires
            self@.wf(),
            self@.next < self@.packages.len(),
        ensures
            r@ == safe_of(self@),
    {
        let name = self.packages[self.next].as_str();
        choose_package_name(
            sanitize_skill_name(name),
            sanitize_skill_name(cat3(self.owner.as_str(), "-", name).as_str()),
            self.next,
        )
    }

    fn turn(&self) -> (r: InstallStep)
        requires
            self@.wf(),
        ensures
            r@ == turn_to(self@),
    {
        if self.next < self.packages.len() {
            InstallStep::Inspect { package: self.next, safe: self.safe_name() }
        } else {
            InstallStep::Finish
        }
    }

    /// Takes the names of the packages in the clone.
    pub fn on_packages(&mut self, names: Vec<String>) -> (r: InstallStep)
        ensures
            final(self)@ == listed(old(self)@, text::texts(names@)),
            final(self)@.wf(),
            r@ == after_search(old(self)@, text::texts(names@)),
    {
        let ghost v = self@;
        let none = names.len() == 0;
        self.packages = names;
        self.next = 0;
        self.installed = Vec::new();
        self.skipped = Vec::new();
        proof {
            assert(self@.installed =~= Seq::empty());
            assert(self@.skipped =~= Seq::empty());
            assert(self@ =~= listed(v, text::texts(names@)));
        }
        if none {
            let at = match &self.path {
                Some(p) => cat2("/", p.as_str()),
                None => String::new(),
            };
            return InstallStep::Failed(
                cat3("在 ", self.owner.as_str(), "/").concat(self.repo.as_str()).concat(
                    at.as_str(),
                ).concat(" 中未找到 SKILL.md 技能包"),
            );
        }
        self.turn()
    }

    fn skip(&mut self, line: String)
        requires
            old(self)@.wf(),
            old(self)@.next < old(self)@.packages.len(),
        ensures
            final(self)@ == with_skipped(old(self)@, line@),
            final(self)@.wf(),
    {
        let ghost v = self@;
        proof {
            text::lemma_texts_push(self.skipped@, line);
        }
        self.skipped.push(line);
        self.next = self.next + 1;
        assert(self@ =~= with_skipped(v, line@));
    }

    fn report(&mut self, line: String)
        requires
            old(self)@.wf(),
            old(self)@.next < old(self)@.packages.len(),
        ensures
            final(self)@ == with_installed(old(self)@, line@),
            final(self)@.wf(),
    {
        let ghost v = self@;
        proof {
            text::lemma_texts_push(self.installed@, line);
        }
        self.installed.push(line);
        self.next = self.next + 1;
        assert(self@ =~= with_installed(v, line@));
    }

    /// Goes on after a look at what is installed under the name of a package.
    pub fn on_inspected(&mut self, present: Present) -> (r: InstallStep)
        requires
            old(self)@.wf(),
            old(self)@.next < old(self)@.packages.len(),
        ensures
            (final(self)@, r@) == after_inspect(old(self)@, present@),
            final(self)@.wf(),
    {
        let ghost v = self@;
        let safe = self.safe_name();
        let package: usize = self.next;
        match present {
            Present::Nothing => InstallStep::Copy {
                package,
                safe,
                record: copy_option(&self.commit),
            },
            Present::Package(previous) => match decide_existing(&previous, &self.commit) {
                Existing::Keep => {
                    let current = match &self.commit {
                        Some(c) => short_commit(c.as_str()),
                        None => short_commit(""),
                    };
                    proof {
                        reveal_strlit("");
                        assert(""@ =~= Seq::empty());
                    }
                    let line = cat3(
                        safe.as_str(),
                        " (远端仍是已安装的版本 ",
                        current.as_str(),
                    ).concat("，未覆盖，保留本地修改)");
                    self.skip(line);
                    self.turn()
                },
                Existing::Replace(note) => {
                    self.note = note;
                    assert(self@ =~= InstallView { note: note@, ..v });
                    InstallStep::Replace { package, safe, record: copy_option(&self.commit) }
                },
            },
        }
    }

    /// Goes on after a copy.
    pub fn on_copied(&mut self, copied: Result<(), String>) -> (r: InstallStep)
        requires
            old(self)@.wf(),
            old(self)@.next < old(self)@.packages.len(),
        ensures
            (final(self)@, r@) == after_copy(
                old(self)@,
                match copied {
                    Ok(_) => None,
                    Err(e) => Some(e@),
                },
            ),
            final(self)@.wf(),
    {
        match copied {
            Err(e) => InstallStep::Failed(e),
            Ok(_) => {
                let safe = self.safe_name();
                self.report(safe);
                self.turn()
            },
        }
    }

    /// Goes on after a replacement, given where the earlier package went.
    pub fn on_replaced(&mut self, backup: Result<String, String>) -> (r: InstallStep)
        requires
            old(self)@.wf(),
            old(self)@.next < old(self)@.packages.len(),
        ensures
            (final(self)@, r@) == after_replace(old(self)@, naming::result_text(backup)),
            final(self)@.wf(),
    {
        match backup {
            Err(e) => InstallStep::Failed(e),
            Ok(b) => {
                let line = cat3(self.safe_name().as_str(), " (", self.note.as_str()).concat(
                    "；本地旧副本已备份到 ",
                ).concat(b.as_str()).concat(")");
                self.report(line);
                self.turn()
            },
        }
    }

    /// Ends the installation into a directory.
    pub fn finish(self, target_dir: &str) -> (r: InstallReport)
        ensures
            r.spec@ == self@.spec,
            text::texts(r.installed@) == self@.installed,
            text::texts(r.skipped@) == self@.skipped,
            r.source_dir@ == source_of(self@),
            r.target_dir@ == target_dir@,
            r.message@ == message_of(self@, target_dir@),
    {
        let ghost v = self@;
        let n: usize = self.installed.len();
        let message = if n == 0 {
            cat3(
                "未新装技能（",
                decimal(self.skipped.len() as u64).as_str(),
                " 个已存在）。可用 skills 目录: ",
            ).concat(target_dir)
        } else {
            let mut lines: Vec<String> = Vec::new();
            let ghost all = report_lines(v.installed);
            assert(text::texts(lines@) =~= all.take(0));
            for i in 0..n
                invariant
                    n == self.installed@.len(),
                    v.installed == text::texts(self.installed@),
                    all == report_lines(v.installed),
                    text::texts(lines@) == all.take(i as int),
            {
                let line = cat2("  - ", self.installed[i].as_str());
                proof {
                    text::lemma_texts_push(lines@, line);
                    assert(line@ =~= all[i as int]);
                    assert(all.take(i + 1) =~= all.take(i as int).push(all[i as int]));
                }
                lines.push(line);
            }
            assert(all.take(n as int) =~= all);
            cat3("已安装 ", decimal(n as u64).as_str(), " 个 skill 到 ").concat(target_dir).concat(
                ":\n",
            ).concat(join(&lines, "\n").as_str())
        };
        let source_dir = self.source();
        InstallReport {
            spec: self.spec,
            installed: self.installed,
            skipped: self.skipped,
            source_dir,
            target_dir: target_dir.to_string(),
            message,
        }
    }
}

// ── Laws ────────────────────────────────────────────────────────────────────

/// A package that is already there stays exactly where it came from the very
/// revision that is installed now: without a record of where it came from, or
/// without a known revision, it is put aside and replaced.
pub proof fn law_local_changes_are_kept(previous: Option<Seq<char>>, current: Option<Seq<char>>)
    ensures
        existing_package(previous, current) is Keep <==> (previous is Some && previous == current),
{
}

/// Nothing outside the clone is installed: the search for packages goes on from a
/// path only where the path really lies in the clone.
pub proof fn law_only_the_clone_is_searched(path: Seq<char>, found: Resolved)
    ensures
        after_resolve(path, found) is Revise ==> found is At && paths::starts_with(
            paths::path_view(found->path@),
            paths::path_view(found->clone@),
        ),
        after_resolve(path, found) is Revise || after_resolve(path, found) is Failed,
{
}

/// A package that is there is never written over: either it stays, or it is put
/// aside before another takes its place.
pub proof fn law_what_is_there_is_put_aside(v: InstallView, previous: Option<Seq<char>>)
    ensures
        !(after_inspect(v, PresentView::Package(previous)).1 is Copy),
{
}

/// When the report is due, every package in the clone has one line in it, and a
/// package is replaced only after what is there was looked at.
pub proof fn law_every_package_is_reported(v: InstallView)
    requires
        v.wf(),
    ensures
        turn_to(v) is Finish ==> v.installed.len() + v.skipped.len() == v.packages.len(),
        !(turn_to(v) is Copy) && !(turn_to(v) is Replace),
{
}

/// What is installed: the revision that is recorded of each package, if any, by name.
pub type Installed = Map<Seq<char>, Option<Seq<char>>>;

/// What is installed under a name.
pub open spec fn present_in(disk: Installed, name: Seq<char>) -> PresentView {
    if disk.contains_key(name) {
        PresentView::Package(disk[name])
    } else {
        PresentView::Nothing
    }
}

/// The name under which the package `k` is installed.
pub open spec fn safe_at(v: InstallView, k: int) -> Seq<char> {
    safe_of(InstallView { next: k, ..v })
}

/// An installation that was carried out: how it ended, what is installed then, and
/// which names were written to, in order.
#[verifier::ext_equal]
pub ghost struct CarriedOut {
    pub run: InstallView,
    pub disk: Installed,
    pub written: Seq<Seq<char>>,
}

/// What the rest of an installation comes to where every copy succeeds: each package
/// in turn is looked up, and kept, copied or put in the place of what is there, which
/// goes to one of `backups`. A package that is written is recorded with its revision.
pub open spec fn carried_out(
    v: InstallView,
    disk: Installed,
    backups: spec_fn(int) -> Seq<char>,
) -> CarriedOut
    decreases v.packages.len() - v.next,
{
    if v.next < 0 || v.next >= v.packages.len() {
        CarriedOut { run: v, disk, written: Seq::empty() }
    } else {
        let name = safe_of(v);
        let (w, step) = after_inspect(v, present_in(disk, name));
        match step {
            InstallStepView::Copy { record, .. } => {
                let rest = carried_out(after_copy(w, None).0, disk.insert(name, record), backups);
                CarriedOut { written: seq![name] + rest.written, ..rest }
            },
            InstallStepView::Replace { record, .. } => {
                let rest = carried_out(
                    after_replace(w, Ok(backups(v.next))).0,
                    disk.insert(name, record),
                    backups,
                );
                CarriedOut { written: seq![name] + rest.written, ..rest }
            },
            _ => carried_out(w, disk, backups),
        }
    }
}

/// Whether a line of the report is of the package `name`, as installed.
pub open spec fn tells_of(line: Seq<char>, name: Seq<char>) -> bool {
    line == name || exists|note: Seq<char>, backup: Seq<char>|
        line == #[trigger] replaced_text(name, note, backup)
}

/// A package that is there at the very revision that is installed now is left alone
/// over a whole installation: nothing is written under its name, its record stays, and
/// it is reported as skipped. What is reported as installed are the packages that were
/// written, of which it is none.
pub proof fn law_package_at_the_revision_is_kept(
    v: InstallView,
    disk: Installed,
    backups: spec_fn(int) -> Seq<char>,
    name: Seq<char>,
)
    requires
        v.wf(),
        v.commit is Some,
        disk.contains_key(name),
        disk[name] == v.commit,
    ensures
        ({
            let r = carried_out(v, disk, backups);
            &&& r.run.wf()
            &&& turn_to(r.run) is Finish
            &&& !r.written.contains(name)
            &&& r.disk.contains_key(name)
            &&& r.disk[name] == v.commit
            &&& r.run.installed.len() == v.installed.len() + r.written.len()
            &&& forall|j: int|
                0 <= j < r.written.len() ==> tells_of(
                    r.run.installed[v.installed.len() + j],
                    #[trigger] r.written[j],
                )
            &&& forall|j: int|
                0 <= j < v.installed.len() ==> #[trigger] r.run.installed[j] == v.installed[j]
            &&& forall|j: int|
                0 <= j < v.skipped.len() ==> #[trigger] r.run.skipped[j] == v.skipped[j]
            &&& r.run.skipped.len() >= v.skipped.len()
            &&& forall|k: int|
                v.next <= k < v.packages.len() && #[trigger] safe_at(v, k) == name
                    ==> r.run.skipped.contains(kept_text(name, v.commit))
        }),
    decreases v.packages.len() - v.next,
{
    if v.next < v.packages.len() {
        let mine = safe_of(v);
        let (w, step) = after_inspect(v, present_in(disk, mine));
        let r = carried_out(v, disk, backups);
        if step is Copy || step is Replace {
            let u = if step is Copy {
                after_copy(w, None).0
            } else {
                after_replace(w, Ok(backups(v.next))).0
            };
            let d = disk.insert(mine, v.commit);
            law_package_at_the_revision_is_kept(u, d, backups, name);
            let rest = carried_out(u, d, backups);
            assert(r.written == seq![mine] + rest.written);
            assert(mine != name);
            assert(!r.written.contains(name)) by {
                if r.written.contains(name) {
                    let j = choose|j: int| 0 <= j < r.written.len() && r.written[j] == name;
                    assert(rest.written[j - 1] == name);
                }
            }
            let line = u.installed[v.installed.len() as int];
            assert(r.run.installed[v.installed.len() as int] == line);
            assert(tells_of(line, mine)) by {
                if step is Replace {
                    assert(line == replaced_text(mine, w.note, backups(v.next)));
                }
            }
            assert forall|j: int| 0 <= j < r.written.len() implies tells_of(
                r.run.installed[v.installed.len() + j],
                #[trigger] r.written[j],
            ) by {
                if j > 0 {
                    assert(r.written[j] == rest.written[j - 1]);
                    assert(tells_of(r.run.installed[u.installed.len() + (j - 1)], rest.written[j - 1]));
                }
            }
            assert forall|j: int| 0 <= j < v.installed.len() implies #[trigger] r.run.installed[j]
                == v.installed[j] by {
                assert(u.installed[j] == v.installed[j]);
            }
            assert forall|k: int|
                v.next <= k < v.packages.len() && #[trigger] safe_at(v, k) == name
                implies r.run.skipped.contains(kept_text(name, v.commit)) by {
                assert(safe_at(u, k) == safe_at(v, k));
            }
        } else {
            law_package_at_the_revision_is_kept(w, disk, backups, name);
            assert(w.skipped.last() == kept_text(mine, v.commit));
            assert(r.run.skipped[v.skipped.len() as int] == w.skipped[v.skipped.len() as int]);
            assert forall|j: int| 0 <= j < v.skipped.len() implies #[trigger] r.run.skipped[j]
                == v.skipped[j] by {
                assert(w.skipped[j] == v.skipped[j]);
            }
            assert forall|k: int|
                v.next <= k < v.packages.len() && #[trigger] safe_at(v, k) == name
                implies r.run.skipped.contains(kept_text(name, v.commit)) by {
                assert(safe_at(w, k) == safe_at(v, k));
                if k == v.next {
                    assert(r.run.skipped[v.skipped.len() as int] == kept_text(name, v.commit));
                }
            }
        }
    }
}

proof fn lemma_installed_at_the_revision(
    v: InstallView,
    disk: Installed,
    backups: spec_fn(int) -> Seq<char>,
)
    requires
        v.wf(),
        v.commit is Some,
    ensures
        forall|k: int|
            v.next <= k < v.packages.len() ==> carried_out(v, disk, backups).disk.contains_key(
                #[trigger] safe_at(v, k),
            ) && carried_out(v, disk, backups).disk[safe_at(v, k)] == v.commit,
    decreases v.packages.len() - v.next,
{
    if v.next < v.packages.len() {
        let mine = safe_of(v);
        let (w, step) = after_inspect(v, present_in(disk, mine));
        let (u, d) = if step is Copy {
            (after_copy(w, None).0, disk.insert(mine, v.commit))
        } else if step is Replace {
            (after_replace(w, Ok(backups(v.next))).0, disk.insert(mine, v.commit))
        } else {
            (w, disk)
        };
        lemma_installed_at_the_revision(u, d, backups);
        law_package_at_the_revision_is_kept(u, d, backups, mine);
        assert(carried_out(v, disk, backups).disk == carried_out(u, d, backups).disk);
        assert forall|k: int| v.next <= k < v.packages.len() implies carried_out(
            v,
            disk,
            backups,
        ).disk.contains_key(#[trigger] safe_at(v, k)) && carried_out(v, disk, backups).disk[safe_at(
            v,
            k,
        )] == v.commit by {
            assert(safe_at(u, k) == safe_at(v, k));
            if k == v.next {
                assert(safe_at(v, k) == mine);
            }
        }
    }
}

proof fn lemma_nothing_to_write(
    v: InstallView,
    disk: Installed,
    backups: spec_fn(int) -> Seq<char>,
)
    requires
        v.wf(),
        v.commit is Some,
        forall|k: int|
            v.next <= k < v.packages.len() ==> disk.contains_key(#[trigger] safe_at(v, k))
                && disk[safe_at(v, k)] == v.commit,
    ensures
        carried_out(v, disk, backups).written.len() == 0,
        carried_out(v, disk, backups).disk == disk,
        carried_out(v, disk, backups).run.installed == v.installed,
    decreases v.packages.len() - v.next,
{
    if v.next < v.packages.len() {
        let (w, step) = after_inspect(v, present_in(disk, safe_of(v)));
        assert(safe_at(v, v.next) == safe_of(v));
        assert forall|k: int| w.next <= k < w.packages.len() implies disk.contains_key(
            #[trigger] safe_at(w, k),
        ) && disk[safe_at(w, k)] == w.commit by {
            assert(safe_at(w, k) == safe_at(v, k));
        }
        lemma_nothing_to_write(w, disk, backups);
    }
}

/// Installing the same revision once more writes nothing: whatever was changed in the
/// packages meanwhile, as long as the records of where they came from are there, stays
/// as it is, and nothing is reported as installed.
pub proof fn law_second_install_changes_nothing(
    v: InstallView,
    disk: Installed,
    backups: spec_fn(int) -> Seq<char>,
    later: spec_fn(int) -> Seq<char>,
)
    requires
        v.wf(),
        v.commit is Some,
        v.next == 0,
    ensures
        ({
            let first = carried_out(v, disk, backups);
            let second = carried_out(v, first.disk, later);
            &&& second.written.len() == 0
            &&& second.disk == first.disk
            &&& second.run.installed == v.installed
        }),
{
    lemma_installed_at_the_revision(v, disk, backups);
    lemma_nothing_to_write(v, carried_out(v, disk, backups).disk, later);
}

/// What is cloned is the repository that was asked for, and what is looked for in it is the
/// path that was given.
pub proof fn law_named_repository_is_cloned(
    host: Seq<char>,
    parts: Seq<Seq<char>>,
    suffix: Seq<char>,
)
    requires
        host == ""@ || host == "https://github.com/"@ || host == "http://github.com/"@ || host
            == "github.com/"@,
        suffix == ""@ || suffix == ".git"@,
        parts.len() >= 2,
        forall|i: int| 0 <= i < parts.len() ==> naming::is_address_part(#[trigger] parts[i]),
        parts[0] != "github.com"@,
    ensures
        install_start(host + text::joined(parts, seq!['/']) + suffix) matches Ok(v) && {
            &&& url_of(v) == "https://github.com/"@ + parts[0] + "/"@ + parts[1] + ".git"@
            &&& after_clone(v, Cloned::Done) == (if parts.len() == 2 {
                InstallStepView::Revise
            } else {
                InstallStepView::Resolve(text::joined(parts.skip(2), seq!['/']))
            })
            &&& v.wf()
        },
{
    let spec = host + text::joined(parts, seq!['/']) + suffix;
    naming::law_address_reads_back(host, parts, suffix);
    text::lemma_trim_twice(spec);
    let s = text::trim_of(spec);
    assert(naming::bare_spec(s) == naming::bare_spec(spec));
    assert(naming::github_spec(s) == naming::github_spec(spec));
    naming::lemma_nothing_is_no_address(s);
}

} // verus!
