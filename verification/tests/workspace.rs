use herdr_sidebar::workspace::{
    add_error, choose_workspace, registry_targets, selected_path, worktree_paths, Folder,
    FolderEntry, Registration, Registrations, RegistryEntry, Resolved, Target, TaskFile,
    TaskWorkspace, Workspace,
};

fn folder(error: Option<&str>) -> Folder {
    Folder {
        label: "l".into(),
        path: "/p".into(),
        task: None,
        repo_id: None,
        target: None,
        error: error.map(String::from),
    }
}

#[test]
fn add_error_joins_errors() {
    let mut f = folder(None);
    add_error(&mut f, "first".into());
    assert_eq!(f.error.as_deref(), Some("first"));
    add_error(&mut f, "second".into());
    assert_eq!(f.error.as_deref(), Some("first; second"));
    assert_eq!(f.label, "l");
}

fn entry(id: &str, remote: Option<&str>, branch: Option<&str>) -> RegistryEntry {
    RegistryEntry {
        id: id.into(),
        remote: remote.map(String::from),
        default_branch: branch.map(String::from),
    }
}

#[test]
fn registry_targets_need_remote_and_branch_and_unique_ids() {
    let targets = registry_targets(&vec![
        entry("a", Some("git@x:a"), Some("main")),
        entry("b", Some("  "), Some("main")),
        entry("c", Some("git@x:c"), None),
        entry("d", Some("git@x:d"), Some("main")),
        entry("d", Some("git@x:d2"), Some("dev")),
        entry("d", Some("git@x:d3"), Some("dev")),
    ]);
    assert_eq!(targets.len(), 4);
    assert_eq!(targets[0].0, "a");
    let a = targets[0].1.as_ref().unwrap();
    assert_eq!((a.remote_url.as_str(), a.branch.as_str()), ("git@x:a", "main"));
    assert_eq!(
        targets[1].1.as_ref().unwrap_err(),
        "repository b has no remote/default_branch in config/repositories.yaml"
    );
    assert_eq!(
        targets[2].1.as_ref().unwrap_err(),
        "repository c has no remote/default_branch in config/repositories.yaml"
    );
    assert_eq!(targets[3].0, "d");
    assert_eq!(
        targets[3].1.as_ref().unwrap_err(),
        "duplicate repository d in config/repositories.yaml"
    );
}

fn task(id: &str, repos: &[&str], worktrees: &[(&str, &str)]) -> TaskFile {
    TaskFile {
        id: id.into(),
        workspace: Some(TaskWorkspace {
            repos: repos.iter().map(|r| r.to_string()).collect(),
            worktrees: worktrees.iter().map(|(r, p)| (r.to_string(), p.to_string())).collect(),
        }),
    }
}

#[test]
fn record_task_registers_declared_worktrees() {
    let mut regs = Registrations::new();
    let t = task("fix", &["app", "lib", "docs"], &[("app", "worktrees/fix/app"), ("ghost", "/abs/ghost"), ("lib", "/abs/lib")]);
    let paths = worktree_paths("/ctl", &t);
    assert_eq!(paths, vec!["/ctl/worktrees/fix/app", "/abs/ghost", "/abs/lib"]);
    regs.record_task("fix", &t, &paths);
    assert_eq!(regs.by_path.len(), 2);
    assert_eq!(regs.by_path[0].0, "/ctl/worktrees/fix/app");
    assert_eq!(regs.by_path[0].1[0].task, "fix");
    assert_eq!(regs.by_path[0].1[0].repo, "app");
    assert_eq!(regs.by_path[0].1[0].declared, 3);
    assert_eq!(
        regs.invalid_tasks,
        vec![("fix".to_string(), "task fix registers undeclared repository ghost".to_string())]
    );

    let mut regs = Registrations::new();
    regs.record_task("other", &task("fix", &[], &[]), &Vec::new());
    assert_eq!(regs.invalid_tasks[0].1, "task id fix does not match other");
    let bare = TaskFile { id: "bare".into(), workspace: None };
    regs.record_task("bare", &bare, &Vec::new());
    assert_eq!(regs.invalid_tasks[1].1, "task bare has no workspace registration");
}

#[test]
fn register_groups_claims_by_path() {
    let mut regs = Registrations::new();
    let reg = |t: &str| Registration { task: t.into(), repo: "r".into(), declared: 1 };
    regs.register("/a/b".into(), reg("one"));
    regs.register("/a//b/".into(), reg("two"));
    regs.register("/a/c".into(), reg("three"));
    assert_eq!(regs.by_path.len(), 2);
    assert_eq!(regs.by_path[0].1.len(), 2);
    regs.mark_invalid("x".into(), "first".into());
    regs.mark_invalid("x".into(), "second".into());
    assert_eq!(regs.invalid_tasks, vec![("x".to_string(), "second".to_string())]);
}

fn fentry(name: Option<&str>, path: Option<&str>, uri: Option<&str>) -> FolderEntry {
    FolderEntry {
        name: name.map(String::from),
        path: path.map(String::from),
        uri: uri.map(String::from),
    }
}

#[test]
fn assemble_takes_identity_from_registrations() {
    let root = "/ctl";
    let entries = vec![
        fentry(Some("App"), Some("worktrees/fix/app"), None),
        fentry(None, Some("./worktrees/fix/app"), None),
        fentry(Some(""), Some("."), None),
        fentry(Some("Remote"), None, Some("vscode-remote://x")),
        fentry(None, None, None),
        fentry(Some("Empty"), Some(""), None),
        fentry(None, Some("worktrees/bad/repo"), None),
        fentry(None, Some("elsewhere"), None),
        fentry(None, Some("worktrees/fix/lib"), None),
        fentry(None, Some("shared"), None),
    ];
    let resolved: Vec<Option<Resolved>> = entries
        .iter()
        .map(|e| {
            selected_path(root, e).map(|p| Resolved {
                path: herdr_sidebar::paths::lexical_normal(&p),
                is_dir: !p.ends_with("elsewhere"),
            })
        })
        .collect();
    let mut regs = Registrations::new();
    let reg = |t: &str, r: &str| Registration { task: t.into(), repo: r.into(), declared: 2 };
    regs.register("/ctl/worktrees/fix/app".into(), reg("fix", "app"));
    regs.register("/ctl/worktrees/fix/lib".into(), reg("fix", "lib"));
    regs.register("/ctl/shared".into(), reg("fix", "app"));
    regs.register("/ctl/shared".into(), reg("other", "app"));
    regs.mark_invalid("bad".into(), "task bad has no workspace registration".into());
    let registry = Ok(vec![
        (
            "app".to_string(),
            Ok(Target { remote_url: "git@x:app".into(), branch: "main".into() }),
        ),
    ]);
    let ws = Workspace::assemble("/ctl/x.code-workspace".into(), root.into(), &entries, &resolved, &regs, &registry);
    let f = &ws.folders;
    assert_eq!(f.len(), 9);
    assert_eq!(f[0].label, "App");
    assert_eq!(f[0].path, "/ctl/worktrees/fix/app");
    assert_eq!(f[0].task.as_deref(), Some("fix"));
    assert_eq!(f[0].repo_id.as_deref(), Some("app"));
    assert_eq!(f[0].target.as_ref().unwrap().branch, "main");
    assert_eq!(f[0].error, None);
    assert_eq!(f[1].label, ".");
    assert_eq!(f[1].path, "/ctl");
    assert_eq!(f[1].task, None);
    assert_eq!(f[1].error, None);
    assert_eq!(f[2].label, "Remote");
    assert_eq!(f[2].error.as_deref(), Some("workspace URI folders are not local paths"));
    assert_eq!(f[3].label, "<no path>");
    assert_eq!(f[3].error.as_deref(), Some("folder 5 has no path"));
    assert_eq!(f[4].error.as_deref(), Some("workspace folder path is empty"));
    assert_eq!(f[5].error.as_deref(), Some("task bad has no workspace registration"));
    assert_eq!(f[5].task, None);
    assert_eq!(
        f[6].error.as_deref(),
        Some("selected folder is missing or not a directory: /ctl/elsewhere; selected folder has no exact task.json worktree registration")
    );
    assert_eq!(f[7].task.as_deref(), Some("fix"));
    assert_eq!(
        f[7].error.as_deref(),
        Some("repository lib is absent from config/repositories.yaml")
    );
    assert_eq!(f[8].error.as_deref(), Some("selected folder is registered by multiple tasks"));
    assert_eq!(f[8].task, None);
    assert_eq!(ws.declared, vec![("fix".to_string(), 2)]);

    let broken: Result<Vec<(String, Result<Target, String>)>, String> =
        Err("cannot read /ctl/config/repositories.yaml".into());
    let mut issue_regs = Registrations::new();
    issue_regs.issue = Some("cannot read /ctl/tasks".into());
    issue_regs.register("/ctl/worktrees/fix/app".into(), reg("fix", "app"));
    let ws = Workspace::assemble("f".into(), root.into(), &entries, &resolved, &issue_regs, &broken);
    assert_eq!(ws.folders[0].error.as_deref(), Some("cannot read /ctl/config/repositories.yaml"));
    assert_eq!(ws.folders[0].task.as_deref(), Some("fix"));
    assert_eq!(ws.folders[5].error.as_deref(), Some("cannot read /ctl/tasks"));
}

#[test]
fn choose_workspace_prefers_the_directory_name_and_refuses_ambiguity() {
    let e = |n: &str, f: bool| (n.to_string(), f);
    assert_eq!(choose_workspace("/x/proj", &vec![e("a.txt", true)]), Ok(None));
    assert_eq!(
        choose_workspace("/x/proj", &vec![e("a.code-workspace", true), e("b", true)]),
        Ok(Some(0))
    );
    assert_eq!(
        choose_workspace(
            "/x/proj",
            &vec![e("a.code-workspace", true), e("proj.code-workspace", true)]
        ),
        Ok(Some(1))
    );
    assert_eq!(
        choose_workspace("/x/proj", &vec![e("a.code-workspace", true), e("b.code-workspace", true)]),
        Err("multiple .code-workspace files in /x/proj: set HERDR_SIDEBAR_CODE_WORKSPACE".to_string())
    );
    assert_eq!(
        choose_workspace("/x/proj", &vec![e(".code-workspace", true), e("d.code-workspace", false)]),
        Ok(None)
    );
}

#[test]
fn declared_is_ordered_by_task_name() {
    let root = "/ctl";
    let entries = vec![
        fentry(None, Some("worktrees/zeta/app"), None),
        fentry(None, Some("worktrees/alpha/app"), None),
        fentry(None, Some("worktrees/mid/app"), None),
    ];
    let resolved: Vec<Option<Resolved>> = entries
        .iter()
        .map(|e| selected_path(root, e).map(|p| Resolved { path: p, is_dir: true }))
        .collect();
    let mut regs = Registrations::new();
    for (task, n) in [("zeta", 1), ("alpha", 2), ("mid", 3)] {
        regs.register(
            format!("/ctl/worktrees/{task}/app"),
            Registration { task: task.into(), repo: "app".into(), declared: n },
        );
    }
    let registry = Ok(Vec::new());
    let ws = Workspace::assemble("f".into(), root.into(), &entries, &resolved, &regs, &registry);
    assert_eq!(
        ws.declared,
        vec![("alpha".to_string(), 2), ("mid".to_string(), 3), ("zeta".to_string(), 1)]
    );
}
