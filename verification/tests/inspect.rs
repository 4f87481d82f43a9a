use herdr_sidebar::delta::{inspect, ChangedFile, Delta, GitOutput, Progress};

const BASE: &str = "1111111111111111111111111111111111111111";
const HEAD: &str = "2222222222222222222222222222222222222222";
const URL: &str = "file:///example/default.git";

fn ok(stdout: &str) -> GitOutput {
    ok_bytes(stdout.as_bytes())
}

fn ok_bytes(stdout: &[u8]) -> GitOutput {
    GitOutput {
        spawn_error: None,
        success: true,
        code: Some(0),
        status: "exit status: 0".to_string(),
        stdout: stdout.to_vec(),
        stderr: Vec::new(),
    }
}

fn fail(code: i32, stderr: &str) -> GitOutput {
    GitOutput {
        spawn_error: None,
        success: false,
        code: Some(code),
        status: format!("exit status: {code}"),
        stdout: Vec::new(),
        stderr: stderr.as_bytes().to_vec(),
    }
}

/// Runs an inspection against a scripted git: each step must ask for the expected
/// arguments and gets the scripted output.
fn run(url: &str, branch: &str, script: Vec<(Vec<&str>, GitOutput)>) -> Delta {
    let mut replies = Vec::new();
    let mut script = script.into_iter();
    loop {
        match inspect(url, branch, &replies) {
            Progress::Done(delta) => {
                assert!(script.next().is_none(), "the inspection stopped early");
                return delta;
            }
            Progress::Run(args) => {
                assert!(
                    ["remote", "config", "check-ref-format", "rev-parse", "merge-base", "diff"]
                        .contains(&args[0].as_str()),
                    "only read-only git commands are asked for"
                );
                if let Some(first) = replies.first() {
                    let first: &GitOutput = first;
                    let remotes = String::from_utf8_lossy(&first.stdout).lines().count();
                    assert!(replies.len() <= remotes + 7, "the inspection runs a bounded sequence");
                }
                let (expected, reply) = script.next().expect("the inspection asked for more");
                assert_eq!(args, expected);
                replies.push(reply);
            }
        }
    }
}

fn prefix() -> Vec<(Vec<&'static str>, GitOutput)> {
    vec![
        (vec!["remote"], ok("origin\n")),
        (vec!["config", "--get", "remote.origin.url"], ok("file:///example/default.git\n")),
        (vec!["check-ref-format", "refs/remotes/origin/main"], ok("")),
        (vec!["rev-parse", "--verify", "refs/remotes/origin/main^{commit}"], ok(&format!("{BASE}\n"))),
        (vec!["rev-parse", "--verify", "HEAD^{commit}"], ok(&format!("{HEAD}\n"))),
    ]
}

#[test]
fn inspect_uses_local_default_branch_merge_base() {
    let mut script = prefix();
    script.push((vec!["merge-base", "--all", HEAD, BASE], ok(&format!("{BASE}\n"))));
    script.push((
        vec!["diff", "--name-status", "-z", "--find-renames", BASE, HEAD, "--"],
        ok_bytes(b"R100\0old name\0new name\0"),
    ));
    script.push((vec!["rev-parse", "--verify", "refs/remotes/origin/main^{commit}"], ok(&format!("{BASE}\n"))));
    script.push((vec!["rev-parse", "--verify", "HEAD^{commit}"], ok(&format!("{HEAD}\n"))));
    let delta = run(URL, "main", script);
    assert_eq!(delta.issue, None);
    assert_eq!(delta.target_ref, "refs/remotes/origin/main");
    assert_eq!(delta.target_oid, BASE);
    assert_eq!(delta.base_oid, BASE);
    assert_eq!(delta.head_oid, HEAD);
    assert_eq!(
        delta.committed,
        vec![ChangedFile {
            path: "new name".into(),
            previous: Some("old name".into()),
            status: 'R',
        }]
    );
}

#[test]
fn inspect_rejects_a_missing_or_option_like_target() {
    for (url, branch) in [("", "main"), (URL, ""), (URL, "-main")] {
        let delta = run(url, branch, Vec::new());
        assert_eq!(
            delta.issue.as_deref(),
            Some("default branch or remote URL is missing or invalid")
        );
        assert!(delta.committed.is_empty());
        assert_eq!(delta.target_ref, "");
    }
}

#[test]
fn inspect_needs_exactly_one_matching_remote() {
    let none = run(
        "file:///other/default.git",
        "main",
        vec![
            (vec!["remote"], ok("origin\n")),
            (vec!["config", "--get", "remote.origin.url"], ok("file:///example/default.git\n")),
        ],
    );
    assert_eq!(
        none.issue.as_deref(),
        Some("no local Git remote matches configured URL file:///other/default.git")
    );

    let two = run(
        URL,
        "main",
        vec![
            (vec!["remote"], ok("origin\nmirror\n")),
            (vec!["config", "--get", "remote.origin.url"], ok("file:///example/default.git\n")),
            (vec!["config", "--get", "remote.mirror.url"], ok("file:///example/default.git")),
        ],
    );
    assert_eq!(
        two.issue.as_deref(),
        Some("multiple Git remotes match configured URL file:///example/default.git")
    );

    let failing = run(
        URL,
        "main",
        vec![
            (vec!["remote"], ok("origin\n")),
            (vec!["config", "--get", "remote.origin.url"], fail(1, "")),
        ],
    );
    assert_eq!(failing.issue.as_deref(), Some("git config failed: exit status: 1"));
}

#[test]
fn inspect_reports_an_invalid_or_missing_branch() {
    let invalid = run(
        URL,
        "bad..name",
        vec![
            (vec!["remote"], ok("origin\n")),
            (vec!["config", "--get", "remote.origin.url"], ok(URL)),
            (vec!["check-ref-format", "refs/remotes/origin/bad..name"], fail(1, "")),
        ],
    );
    assert_eq!(invalid.issue.as_deref(), Some("invalid default branch bad..name"));
    assert_eq!(invalid.target_ref, "");

    let missing = run(
        URL,
        "missing",
        vec![
            (vec!["remote"], ok("origin\n")),
            (vec!["config", "--get", "remote.origin.url"], ok(URL)),
            (vec!["check-ref-format", "refs/remotes/origin/missing"], ok("")),
            (
                vec!["rev-parse", "--verify", "refs/remotes/origin/missing^{commit}"],
                fail(128, "fatal: Needed a single revision\n"),
            ),
        ],
    );
    assert_eq!(
        missing.issue.as_deref(),
        Some("git rev-parse failed: fatal: Needed a single revision")
    );
    assert_eq!(missing.target_ref, "refs/remotes/origin/missing");
    assert!(missing.committed.is_empty());
}

#[test]
fn inspect_rejects_a_revision_that_is_not_an_object_id() {
    let mut script = prefix();
    script.truncate(3);
    script.push((vec!["rev-parse", "--verify", "refs/remotes/origin/main^{commit}"], ok("main\n")));
    let delta = run(URL, "main", script);
    assert_eq!(delta.issue.as_deref(), Some("git returned an invalid object ID"));
}

#[test]
fn inspect_needs_a_single_merge_base() {
    let mut script = prefix();
    script.push((vec!["merge-base", "--all", HEAD, BASE], fail(1, "")));
    let unrelated = run(URL, "main", script);
    assert_eq!(
        unrelated.issue.as_deref(),
        Some("HEAD and the default branch have no common ancestor")
    );
    assert!(unrelated.committed.is_empty());
    assert_eq!(unrelated.target_oid, BASE);
    assert_eq!(unrelated.head_oid, HEAD);

    let mut script = prefix();
    script.push((
        vec!["merge-base", "--all", HEAD, BASE],
        ok(&format!("{BASE}\n{HEAD}\n")),
    ));
    let ambiguous = run(URL, "main", script);
    assert_eq!(
        ambiguous.issue.as_deref(),
        Some("HEAD and the default branch have multiple merge bases")
    );
    assert!(ambiguous.committed.is_empty());
}

#[test]
fn inspect_reports_refs_that_moved_meanwhile() {
    let mut script = prefix();
    script.push((vec!["merge-base", "--all", HEAD, BASE], ok(BASE)));
    script.push((
        vec!["diff", "--name-status", "-z", "--find-renames", BASE, HEAD, "--"],
        ok_bytes(b"M\0file\0"),
    ));
    script.push((vec!["rev-parse", "--verify", "refs/remotes/origin/main^{commit}"], ok(BASE)));
    script.push((vec!["rev-parse", "--verify", "HEAD^{commit}"], ok(BASE)));
    let delta = run(URL, "main", script);
    assert_eq!(
        delta.issue.as_deref(),
        Some("HEAD or the cached default-branch ref moved during inspection; refresh the overview")
    );
    assert!(delta.committed.is_empty());
    assert_eq!(delta.base_oid, BASE);
}

#[test]
fn inspect_reports_a_malformed_diff() {
    let mut script = prefix();
    script.push((vec!["merge-base", "--all", HEAD, BASE], ok(BASE)));
    script.push((
        vec!["diff", "--name-status", "-z", "--find-renames", BASE, HEAD, "--"],
        ok_bytes(b"M\0file"),
    ));
    let delta = run(URL, "main", script);
    assert_eq!(
        delta.issue.as_deref(),
        Some("git diff returned an unterminated name-status record")
    );
}

#[test]
fn finished_inspection_ignores_further_outputs() {
    let mut replies = vec![ok("origin\n"), ok("file:///elsewhere\n")];
    let first = match inspect(URL, "main", &replies) {
        Progress::Done(d) => d,
        Progress::Run(_) => panic!("expected a finished inspection"),
    };
    replies.push(ok("extra"));
    let again = match inspect(URL, "main", &replies) {
        Progress::Done(d) => d,
        Progress::Run(_) => panic!("expected a finished inspection"),
    };
    assert_eq!(first.issue, again.issue);
    assert_eq!(first.committed, again.committed);
}
