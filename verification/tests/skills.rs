//! Skills: reading, finding, saving, installing and deleting them.

use dscode_core::extensions::frontmatter::{
    get_field, parse_frontmatter_name, parse_yaml_frontmatter, unquote_yaml, yaml_quote,
};
use dscode_core::config::settings::EnvChange;
use dscode_core::extensions::install::{
    backup_name, clone_args, decide_existing, git_env, git_timed_out, next_backup, short_commit,
    tail_suffix, Cloned, Existing, InstallRun, InstallStep, Present, Resolved,
};
use dscode_core::extensions::naming::{parse_github_spec, sanitize_skill_name, settle_name};
use dscode_core::extensions::paths::{
    has_parent_dir, is_strictly_under, is_under_any_skills_root, same_path, PathPart,
};
use dscode_core::extensions::skill_document::{save_skill, skill_document, write_skill_file};
use dscode_core::extensions::skill_removal::{
    after_try, deletion_report, matches_target, not_found_text, order_targets, push_unique_target,
    refusal_text, removal_of, target_entry, validate_skill_target, Deletion, Removal, RemovalStep,
    RemovalTry, RootTarget, Target, TargetFacts,
};
use dscode_core::extensions::skill_resources::{
    copy_entry, load_entry, loads_at, looks_like_script, package_dir, package_entry,
    resource_entry, resource_executable, root_entry, sort_resources, walks_at, EntryKind, Visit,
};
use dscode_core::extensions::skills::{
    message_calls_for, parse_file, Skill, SkillLoader, SkillResource,
    SkillResourceKind,
};
use dscode_core::extensions::triggers::{choose_triggers, extract_triggers};

#[test]
fn sanitize_name() {
    assert_eq!(sanitize_skill_name("Code Review").unwrap(), "code-review");
    assert!(sanitize_skill_name("../x").is_err());
}

#[test]
fn sanitize_name_allows_unicode() {
    assert_eq!(sanitize_skill_name("Code Review").unwrap(), "code-review");
    assert_eq!(sanitize_skill_name("代码审查").unwrap(), "代码审查");
    assert_eq!(sanitize_skill_name("代码 审查").unwrap(), "代码-审查");
    assert!(sanitize_skill_name("../x").is_err());
    assert!(sanitize_skill_name("x/y").is_err());
}

#[test]
fn frontmatter_bom_block_scalar_and_dashes_in_value() {
    let content = "\u{feff}---\nname: 代码审查\ndescription: a---b\ntriggers:\n- 代码审查\n- code review\nallowed-tools:\n- do_file_read\n- do_bash\nbody-note: |\n  first line\n  second line\n---\n\nbody text\n";
    let (fm, body) = parse_yaml_frontmatter(content).unwrap();
    assert_eq!(get_field(&fm, "name").as_deref(), Some("代码审查"));
    // `---` inside a value must not terminate the frontmatter
    assert_eq!(get_field(&fm, "description").as_deref(), Some("a---b"));
    assert_eq!(
        get_field(&fm, "triggers").as_deref(),
        Some("代码审查, code review")
    );
    assert_eq!(
        get_field(&fm, "allowed-tools").as_deref(),
        Some("do_file_read, do_bash")
    );
    assert_eq!(
        get_field(&fm, "body-note").as_deref(),
        Some("first line\nsecond line\n")
    );
    assert_eq!(body, "body text");
}

#[test]
fn yaml_quote_unquote_roundtrip() {
    for s in [
        r"Run scripts in C:\new\bin",
        "line1\nline2",
        r#"quote " and backslash \"#,
        r"regex: ^a\\d+$",
    ] {
        assert_eq!(unquote_yaml(&yaml_quote(s)), s, "roundtrip failed for {s:?}");
    }
}

#[test]
fn quoting_keeps_carriage_returns() {
    assert_eq!(yaml_quote("a\r\nb"), "\"a\\r\\nb\"");
    assert_eq!(unquote_yaml(&yaml_quote("a\r\nb")), "a\r\nb");
}

#[test]
fn parse_github_spec_rejects_escaping_subpath() {
    assert!(parse_github_spec("owner/repo").is_ok());
    assert!(parse_github_spec("owner/repo/skill-name").is_ok());
    assert!(parse_github_spec("owner/repo/../../../../home/user").is_err());
    assert!(parse_github_spec("owner/repo/a/../b").is_err());
    assert!(parse_github_spec("owner/repo/..\\..\\windows").is_err());
}

fn path(parts: &[&str]) -> Vec<PathPart> {
    let mut v = vec![PathPart::RootDir];
    for p in parts {
        v.push(match *p {
            ".." => PathPart::ParentDir,
            name => PathPart::Normal(name.to_string()),
        });
    }
    v
}

fn skill(name: &str, content: &str) -> Skill {
    parse_file(content, Some(name.into()), "/s/SKILL.md", "/s").unwrap()
}

#[test]
fn a_saved_skill_is_read_back() {
    let content = format!(
        "---\nname: {}\ndescription: {}\ntriggers: {}\nhidden: false\n---\n\n# Body\nDo X\n",
        yaml_quote("my-skill"),
        yaml_quote("代码审查 skill: 检查 diff"),
        yaml_quote("代码审查, code review, 检查"),
    );
    let mut s = skill("my-skill", &content);
    assert_eq!(s.name, "my-skill");
    assert!(s.description.contains("代码审查"));
    assert!(s.triggers.iter().any(|t| t.contains("代码审查") || t.contains("code review")));
    s.resources.push(SkillResource {
        relative_path: "scripts/lint.sh".into(),
        absolute_path: "/s/scripts/lint.sh".into(),
        kind: SkillResourceKind::Script,
        size_bytes: 10,
        executable: true,
    });
    let prompt = s.to_agent_prompt();
    assert!(prompt.contains("Bundled scripts") || prompt.contains("scripts/lint.sh"));
    let mut loader = SkillLoader::new();
    assert_eq!(loader.load_all(vec![s]), 1);
    assert!(loader.find_by_name("my-skill").is_some());
    assert!(!loader.find_matching("请帮我做一次代码审查").is_empty());
    assert!(loader.find_matching("hello").is_empty());
}

#[test]
fn the_document_of_a_skill_reads_back() {
    let doc = skill_document("n", "a: \"b\"\nc", "x, y", "body\n");
    let (fields, body) = parse_yaml_frontmatter(&doc).unwrap();
    assert_eq!(get_field(&fields, "name").as_deref(), Some("n"));
    assert_eq!(get_field(&fields, "description").as_deref(), Some("a: \"b\"\nc"));
    assert_eq!(parse_frontmatter_name(&doc).as_deref(), Some("n"));
    assert!(body.contains("body"));
    assert!(parse_yaml_frontmatter("---\nname: x\n").is_err());
}

#[test]
fn saving_stays_inside_the_skill() {
    let plan = save_skill(
        "My Pkg",
        "test package",
        "# Run hello.sh",
        &vec!["test-pkg".to_string()],
        &vec![
            ("scripts/hello.sh".to_string(), "#!/bin/sh\n".to_string()),
            ("assets/template.txt".to_string(), "hello\n".to_string()),
        ],
    )
    .unwrap();
    assert_eq!(plan.dir_name, "my-pkg");
    assert_eq!(plan.files.len(), 2);
    assert!(plan.files[0].executable);
    assert!(!plan.files[1].executable);
    assert!(plan.error.is_none());
    let bad = save_skill(
        "x",
        "d",
        "b",
        &vec![],
        &vec![("../evil.sh".to_string(), "".to_string())],
    )
    .unwrap();
    assert!(bad.error.is_some());
    assert!(bad.files.is_empty());
    assert!(write_skill_file("x", "../up", "c").is_err());
    assert!(write_skill_file("x", "scripts/run.sh", "c").is_ok());
    assert!(save_skill("..", "d", "b", &vec![], &vec![]).is_err());
    let cleaned: Vec<char> = "--".chars().collect();
    assert!(settle_name(&cleaned).is_err());
}

#[test]
fn packages_with_the_same_name_are_kept_or_merged() {
    let at = |root: &str| {
        let mut s = skill("same-name", "---\nname: same-name\ndescription: t\n---\n\nx\n");
        s.root = root.into();
        s
    };
    let mut all = SkillLoader::new();
    let n = all.load_all_packages(vec![
        at("/a"),
        at("/b"),
    ]);
    assert_eq!(n, 2);
    assert_eq!(all.list_all().len(), 2);
    let mut first = at("/a");
    first.body = "first".into();
    let mut second = at("/b");
    second.body = "second".into();
    let mut merged = SkillLoader::new();
    merged.load_all(vec![
        first,
        second,
    ]);
    assert_eq!(merged.list_all().len(), 1);
    assert_eq!(merged.list_all()[0].body, "first");
    assert_eq!(merged.list_visible().len(), 1);
    assert!(!merged.is_empty());
    assert!(message_calls_for("run same-name now", false, "same-name", &vec![]));
    assert!(!message_calls_for("run same-name now", true, "same-name", &vec![]));
}

#[test]
fn triggers_are_distinct() {
    let t = extract_triggers("Use \"code review\" or \"code review\" 代码审查");
    let mut seen = t.clone();
    seen.sort();
    seen.dedup();
    assert_eq!(seen.len(), t.len());
    assert!(t.iter().any(|x| x == "code review"));
    assert!(t.iter().any(|x| x == "代码审查"));
    let many: Vec<String> = (0..40).map(|i| format!("t{i}")).collect();
    assert_eq!(choose_triggers(&many).len(), 24);
}

#[test]
fn a_root_is_never_a_target() {
    let skills = path(&["a", "skills"]);
    let pkg = path(&["a", "skills", "good"]);
    assert!(!is_under_any_skills_root(&vec![skills.clone()], &vec![skills.clone()]));
    assert!(is_under_any_skills_root(&vec![pkg.clone()], &vec![skills.clone()]));
    assert!(!is_strictly_under(&path(&["a", "skills", "x", ".."]), &skills));
    assert!(has_parent_dir(&path(&["a", ".."])));
    assert!(same_path(&pkg, &path(&["a", "skills", "good"])));
}

fn facts(folder: &str, has_skill_md: bool, content: Option<&str>) -> TargetFacts {
    TargetFacts {
        present: true,
        folder: folder.into(),
        is_symlink: false,
        has_skill_md,
        content: content.map(|c| c.to_string()),
        display: "/p".into(),
    }
}

#[test]
fn only_the_skill_is_deleted() {
    let doc = "---\nname: good\ndescription: t\n---\n\nbody\n";
    // A directory without SKILL.md is not deletable, whatever the caller says.
    assert!(validate_skill_target(&facts("skills", false, None), "good").is_err());
    assert!(validate_skill_target(&facts("good", true, Some(doc)), "something-else").is_err());
    assert!(validate_skill_target(&facts("good", true, Some(doc)), "good").is_ok());
    assert!(validate_skill_target(&facts("other", true, Some(doc)), "Good").is_ok());
    let mut link = facts("good", true, Some(doc));
    link.is_symlink = true;
    assert!(validate_skill_target(&link, "good").is_ok());
    assert!(validate_skill_target(&link, "bad").is_err());
    assert!(matches_target(&Some("x".into()), &Some(doc.into()), "good", "good"));
    assert!(!matches_target(&Some("x".into()), &None, "good", "good"));
    assert_eq!(target_entry(EntryKind::Symlink, false), Visit::Skip);
    assert_eq!(target_entry(EntryKind::Symlink, true), Visit::Take);
    assert_eq!(removal_of(true, true, true), Removal::Unlink);
    assert_eq!(removal_of(true, false, false), Removal::Refuse);
    assert_eq!(removal_of(true, false, true), Removal::Tree);
    assert_eq!(removal_of(false, false, true), Removal::Nothing);
    assert!(refusal_text("/p").contains("/p"));
}

#[test]
fn a_deletion_is_decided_before_anything_is_touched() {
    let target = |text: &str, parts: Vec<PathPart>, under_root: bool| {
        Some(RootTarget {
            text: text.into(),
            parts,
            logical_present: true,
            plain_present: true,
            under_root,
            display: text.into(),
        })
    };
    assert_eq!(
        SkillLoader::delete_skill_package(" Good ", &None).unwrap(),
        Deletion::Named { name: "Good".into(), needle: "good".into() }
    );
    assert_eq!(
        SkillLoader::delete_skill_package("good", &target("/a/good", path(&["a", "good"]), true))
            .unwrap(),
        Deletion::At { logical: true }
    );
    assert!(SkillLoader::delete_skill_package("good", &target("/a/..", path(&["a", ".."]), true))
        .is_err());
    assert!(SkillLoader::delete_skill_package("good", &target("/b", path(&["b"]), false)).is_err());
    assert!(SkillLoader::delete_skill_package("../x", &None).is_err());
}

#[test]
fn removal_is_tried_five_times() {
    let failed = RemovalTry {
        walk_error: Some("busy".into()),
        whole_error: Some("busy too".into()),
        gone: false,
    };
    assert!(matches!(after_try(1, &failed, "/p"), RemovalStep::Retry(50)));
    match after_try(5, &failed, "/p") {
        RemovalStep::Failed(s) => assert!(s.contains("busy; remove_dir_all: busy too"), "{s}"),
        other => panic!("{:?}", other),
    }
    let gone = RemovalTry { walk_error: None, whole_error: None, gone: true };
    assert!(matches!(after_try(1, &gone, "/p"), RemovalStep::Done));
    assert!(deletion_report(&vec![], &vec!["e".into()]).is_err());
    assert_eq!(
        deletion_report(&vec!["/a".into()], &vec![]).unwrap(),
        "已删除 skill（1 处）: /a"
    );
    assert_eq!(
        not_found_text("x", "peer"),
        "未找到可删除的 skill `x`（已扫描 ~/.dscode/skills、~/.peer/skills 等）"
    );
    assert_eq!(not_found_text("x", ""), "未找到可删除的 skill `x`（已扫描 ~/.dscode/skills 等）");
}

#[test]
fn targets_are_listed_once() {
    let t = |name: &str| Target {
        parts: path(&["s", name]),
        leaf: path(&["s", name]),
        display: format!("/s/{name}"),
    };
    let mut v = vec![];
    push_unique_target(&mut v, t("b"));
    push_unique_target(&mut v, t("a"));
    push_unique_target(&mut v, t("b"));
    assert_eq!(v.len(), 2);
    assert_eq!(order_targets(v).len(), 2);
}

#[test]
fn links_are_passed_over() {
    assert_eq!(resource_entry(EntryKind::Symlink, "leak.sh"), Visit::Skip);
    assert_eq!(resource_entry(EntryKind::File, "notes.md"), Visit::Take);
    assert_eq!(copy_entry(EntryKind::Symlink), Visit::Skip);
    assert_eq!(copy_entry(EntryKind::Dir), Visit::Descend);
    assert_eq!(package_entry(EntryKind::Dir, "node_modules"), Visit::Skip);
    assert_eq!(package_dir(7, true), Visit::Skip);
    assert_eq!(root_entry(EntryKind::File, "skill.md", true), Visit::Skip);
    assert_eq!(load_entry(true, true), Visit::Take);
    assert!(loads_at(5) && !loads_at(6));
    assert!(walks_at(4) && !walks_at(5));
    assert!(looks_like_script("RUN.SH"));
    assert!(!looks_like_script("notes.md"));
    assert!(!resource_executable(SkillResourceKind::Asset, true, true));
    let r = |p: &str| SkillResource {
        relative_path: p.into(),
        absolute_path: p.into(),
        kind: SkillResourceKind::Script,
        size_bytes: 0,
        executable: false,
    };
    let sorted = sort_resources(vec![r("b"), r("a")]);
    assert_eq!(sorted[0].relative_path, "a");
}

fn replace_step(step: InstallStep) -> String {
    match step {
        InstallStep::Replace { safe, record, .. } => {
            assert_eq!(record.as_deref(), Some("0123456789ab"));
            safe
        }
        other => panic!("{:?}", other),
    }
}

#[test]
fn an_installation_keeps_local_changes() {
    let mut run = SkillLoader::install_from_spec("https://github.com/o/r/skills/x").unwrap();
    match run.begin() {
        InstallStep::Clone(url) => assert_eq!(url, "https://github.com/o/r.git"),
        other => panic!("{:?}", other),
    }
    assert_eq!(run.source(), "github.com/o/r");
    let at = match run.on_cloned(Cloned::Done) {
        InstallStep::Resolve(p) => p,
        other => panic!("{:?}", other),
    };
    assert_eq!(at, "skills/x");
    let inside = Resolved::At {
        clone: path(&["tmp", "repo"]),
        path: path(&["tmp", "repo", "skills", "x"]),
        shown: "/tmp/repo/skills/x".into(),
    };
    assert!(matches!(InstallRun::on_resolved(&at, inside), InstallStep::Revise));
    assert!(matches!(run.on_revision(Some(" 0123456789ab\n".into())), InstallStep::Search));
    let names = vec!["a".into(), "My Skill".into(), "..".into()];
    match run.on_packages(names) {
        InstallStep::Inspect { package: 0, safe } => assert_eq!(safe, "a"),
        other => panic!("{:?}", other),
    }
    match run.on_inspected(Present::Package(Some("0123456789ab".into()))) {
        InstallStep::Inspect { package: 1, safe } => assert_eq!(safe, "my-skill"),
        other => panic!("{:?}", other),
    }
    let old = Present::Package(Some("fedcba9876".into()));
    assert_eq!(replace_step(run.on_inspected(old)), "my-skill");
    match run.on_replaced(Ok("/backup".into())) {
        InstallStep::Inspect { package: 2, safe } => assert_eq!(safe, "skill-2"),
        other => panic!("{:?}", other),
    }
    assert!(matches!(run.on_inspected(Present::Nothing), InstallStep::Copy { .. }));
    assert!(matches!(run.on_copied(Ok(())), InstallStep::Finish));
    let report = run.finish("/skills");
    assert_eq!(report.skipped, vec!["a (远端仍是已安装的版本 01234567，未覆盖，保留本地修改)"]);
    assert_eq!(
        report.message,
        "已安装 2 个 skill 到 /skills:\n  - my-skill (已更新 fedcba98 → 01234567；本地旧副本已备份到 /backup)\n  - skill-2"
    );
}

#[test]
fn an_installation_can_fail() {
    assert!(SkillLoader::install_from_spec("  ").is_err());
    assert!(SkillLoader::install_from_spec("only-owner").is_err());
    let mut run = SkillLoader::install_from_spec("o/r").unwrap();
    let text = |step| match step {
        InstallStep::Failed(e) => e,
        other => panic!("{:?}", other),
    };
    assert_eq!(text(run.on_cloned(Cloned::Unfinished("no git".into()))), "no git");
    assert_eq!(
        text(run.on_cloned(Cloned::Refused(" gone\n".into()))),
        "git clone 失败: https://github.com/o/r.git\ngone\n请检查网络与仓库是否存在，或手动: npx skills add o/r"
    );
    assert!(matches!(run.on_cloned(Cloned::Done), InstallStep::Revise));
    assert_eq!(text(InstallRun::on_resolved("p", Resolved::Missing)), "仓库内找不到路径: p");
    assert!(text(InstallRun::on_resolved("p", Resolved::CloneUnknown("e".into()))).ends_with(": e"));
    assert!(text(InstallRun::on_resolved("p", Resolved::PathUnknown("e".into()))).ends_with(": e"));
    let outside = Resolved::At {
        clone: path(&["tmp", "repo"]),
        path: path(&["tmp", "repository"]),
        shown: "/tmp/repository".into(),
    };
    assert!(text(InstallRun::on_resolved("p", outside)).starts_with("拒绝安装"));
    assert_eq!(text(run.on_packages(vec![])), "在 o/r 中未找到 SKILL.md 技能包");
    let _ = run.on_packages(vec!["a".into()]);
    assert_eq!(text(run.on_copied(Err("full".into()))), "full");
    assert_eq!(text(run.on_replaced(Err("locked".into()))), "locked");
    assert_eq!(
        decide_existing(&None, &None),
        Existing::Replace("已覆盖（无法确定远端版本）".into())
    );
}

#[test]
fn git_runs_without_questions() {
    let env = git_env(&Some(None));
    assert_eq!(env.len(), 12);
    assert_eq!(env[0], EnvChange::Assign("GIT_TERMINAL_PROMPT".into(), "0".into()));
    assert_eq!(git_env(&None).len(), 4);
    assert_eq!(clone_args("u", "d"), vec!["clone", "--depth", "1", "--quiet", "u", "d"]);
    assert_eq!(git_timed_out("clone", 180, " slow "), "git clone 超时（180s）\nslow");
    assert_eq!(backup_name("s", "t", 0), "s-t");
    assert_eq!(backup_name("s", "t", 2), "s-t-2");
    assert_eq!(next_backup(0, true), Some(1));
    assert_eq!(next_backup(0, false), None);
    assert_eq!(next_backup(100, true), None);
    assert_eq!(short_commit("0123456789"), "01234567");
    assert_eq!(tail_suffix("  "), "");
    assert_eq!(tail_suffix(" x "), "\nx");
}

#[test]
fn search_paths_are_distinct() {
    let home = Some(path(&["home"]));
    let default = SkillLoader::default_skills_dir(&Some(path(&["home", ".dscode"])));
    let all = SkillLoader::search_paths(
        &default,
        &vec![default.clone(), path(&["extra"])],
        &home,
        &Some(path(&["home"])),
        "peer",
    );
    assert_eq!(all.len(), 7);
    assert!(same_path(&all[3], &path(&["home", ".peer", "skills"])));
    assert!(same_path(&all[0], &default));
    for i in 0..all.len() {
        for j in 0..i {
            assert!(!same_path(&all[i], &all[j]));
        }
    }
}

#[test]
fn names_are_tidy_and_their_own() {
    for name in ["--A  b--_C!", "My   Skill", "x.y", "-- a --"] {
        let r = sanitize_skill_name(name).unwrap();
        assert!(!r.contains("--") && !r.starts_with('-') && !r.ends_with('-'), "{r}");
        assert_eq!(sanitize_skill_name(&r).unwrap(), r);
    }
    assert_eq!(sanitize_skill_name("--A  b--_C!").unwrap(), "a-b-_c");
}

#[test]
fn a_second_installation_keeps_what_is_there() {
    let mut run = SkillLoader::install_from_spec("o/r").unwrap();
    assert!(matches!(run.on_revision(Some("0123456789ab".into())), InstallStep::Search));
    let names = vec!["a".into(), "b".into()];
    assert!(matches!(run.on_packages(names), InstallStep::Inspect { package: 0, .. }));
    let there = || Present::Package(Some("0123456789ab".into()));
    assert!(matches!(run.on_inspected(there()), InstallStep::Inspect { package: 1, .. }));
    assert!(matches!(run.on_inspected(there()), InstallStep::Finish));
    let report = run.finish("/skills");
    assert!(report.installed.is_empty());
    assert_eq!(report.skipped.len(), 2);
}
