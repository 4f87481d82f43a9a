use herdr_sidebar::delta::{git_result, object_id, parse_names, text, ChangedFile, GitOutput};

#[test]
fn name_status_z_keeps_rename_source_and_special_paths() {
    let files = parse_names(b"R094\0before\tname\0after\nname\0M\0plain\0").unwrap();
    assert_eq!(
        files,
        vec![
            ChangedFile {
                path: "after\nname".into(),
                previous: Some("before\tname".into()),
                status: 'R'
            },
            ChangedFile {
                path: "plain".into(),
                previous: None,
                status: 'M'
            },
        ]
    );

    assert!(parse_names(b"R100\0before\0").is_err());
    assert!(parse_names(b"M\0file").is_err());
}

#[test]
fn parse_names_of_empty_output_is_empty() {
    assert_eq!(parse_names(b"").unwrap(), Vec::<ChangedFile>::new());
}

#[test]
fn parse_names_reports_each_malformed_record() {
    assert_eq!(
        parse_names(b"M\0file").unwrap_err(),
        "git diff returned an unterminated name-status record"
    );
    assert_eq!(
        parse_names(b"\0").unwrap_err(),
        "git diff returned an incomplete name-status record"
    );
    assert_eq!(
        parse_names(b"M\0").unwrap_err(),
        "git diff returned an incomplete name-status record"
    );
    assert_eq!(
        parse_names(b"X\0file\0").unwrap_err(),
        "git diff returned an unknown name-status code"
    );
    assert_eq!(
        parse_names(b"R100\0before\0").unwrap_err(),
        "git diff returned a rename without a destination"
    );
    assert_eq!(
        parse_names(b"A\0new\0C75\0src\0").unwrap_err(),
        "git diff returned a rename without a destination"
    );
}

#[test]
fn parse_names_keeps_copies_and_every_status() {
    let files = parse_names(b"C75\0src\0dst\0A\0a\0D\0d\0T\0t\0U\0u\0").unwrap();
    assert_eq!(files.len(), 5);
    assert_eq!(files[0].path, "dst");
    assert_eq!(files[0].previous.as_deref(), Some("src"));
    assert_eq!(files[0].status, 'C');
    let statuses: Vec<char> = files.iter().map(|f| f.status).collect();
    assert_eq!(statuses, vec!['C', 'A', 'D', 'T', 'U']);
}

#[test]
fn parse_names_decodes_paths_lossily() {
    let files = parse_names(b"M\0caf\xc3\xa9\0A\0bad\xffname\0").unwrap();
    assert_eq!(files[0].path, "caf\u{e9}");
    assert_eq!(files[1].path, "bad\u{fffd}name");
}

#[test]
fn object_id_accepts_only_full_hex_ids() {
    let sha1 = "0123456789abcdef0123456789ABCDEF01234567";
    assert_eq!(object_id(sha1).unwrap(), sha1);
    let sha256 = "a".repeat(64);
    assert_eq!(object_id(&sha256).unwrap(), sha256);
    for bad in ["", "HEAD", "main^{commit}", &"a".repeat(39), &"a".repeat(41), &"g".repeat(40)] {
        assert_eq!(object_id(bad).unwrap_err(), "git returned an invalid object ID");
    }
}

fn output(success: bool, code: Option<i32>, stdout: &[u8], stderr: &[u8]) -> GitOutput {
    GitOutput {
        spawn_error: None,
        success,
        code,
        status: match code {
            Some(c) => format!("exit status: {c}"),
            None => "signal: 9 (SIGKILL)".to_string(),
        },
        stdout: stdout.to_vec(),
        stderr: stderr.to_vec(),
    }
}

#[test]
fn git_result_judges_the_run() {
    let ok = output(true, Some(0), b"out\n", b"");
    assert_eq!(git_result("rev-parse", &ok).unwrap(), b"out\n");

    let spawn = GitOutput {
        spawn_error: Some("No such file or directory (os error 2)".into()),
        ..output(false, None, b"", b"")
    };
    assert_eq!(
        git_result("remote", &spawn).unwrap_err(),
        "git remote: No such file or directory (os error 2)"
    );

    let no_base = output(false, Some(1), b"", b"");
    assert_eq!(
        git_result("merge-base", &no_base).unwrap_err(),
        "HEAD and the default branch have no common ancestor"
    );
    assert_eq!(
        git_result("rev-parse", &no_base).unwrap_err(),
        "git rev-parse failed: exit status: 1"
    );

    let noisy = output(false, Some(128), b"", b"  fatal: bad revision\n\n");
    assert_eq!(
        git_result("rev-parse", &noisy).unwrap_err(),
        "git rev-parse failed: fatal: bad revision"
    );

    let blank = output(false, Some(2), b"", b" \t\r\n");
    assert_eq!(
        git_result("diff", &blank).unwrap_err(),
        "git diff failed: exit status: 2"
    );
}

#[test]
fn text_strips_line_ends_and_rejects_non_utf8() {
    let o = output(true, Some(0), b"origin\r\nupstream\n\n", b"");
    assert_eq!(text("remote", &o).unwrap(), "origin\r\nupstream");
    let o = output(true, Some(0), b" spaced \n", b"");
    assert_eq!(text("remote", &o).unwrap(), " spaced ");
    let o = output(true, Some(0), b"ab\xffcd", b"");
    assert_eq!(
        text("remote", &o).unwrap_err(),
        "git remote returned non-UTF-8 text: invalid utf-8 sequence of 1 bytes from index 2"
    );
    let o = output(false, Some(1), b"", b"error: no such remote\n");
    assert_eq!(text("config", &o).unwrap_err(), "git config failed: error: no such remote");
}

#[test]
fn parse_names_reads_back_what_git_prints() {
    let files = vec![
        ChangedFile { path: "dir/new\tname".into(), previous: Some("old\nname".into()), status: 'R' },
        ChangedFile { path: "\u{e9}t\u{e9}".into(), previous: None, status: 'A' },
        ChangedFile { path: "copy".into(), previous: Some("orig".into()), status: 'C' },
        ChangedFile { path: " spaced ".into(), previous: None, status: 'D' },
    ];
    let scores = ["087", "", "100", ""];
    let mut raw = Vec::new();
    for (f, score) in files.iter().zip(scores) {
        raw.push(f.status as u8);
        raw.extend_from_slice(score.as_bytes());
        raw.push(0);
        if let Some(p) = &f.previous {
            raw.extend_from_slice(p.as_bytes());
            raw.push(0);
        }
        raw.extend_from_slice(f.path.as_bytes());
        raw.push(0);
    }
    assert_eq!(parse_names(&raw).unwrap(), files);
}

#[test]
fn parse_names_reads_joined_outputs_in_order() {
    let a: &[u8] = b"R090\0old\0new\0";
    let b: &[u8] = b"M\0plain\0D\0gone\0";
    let mut joined = a.to_vec();
    joined.extend_from_slice(b);
    let mut expected = parse_names(a).unwrap();
    expected.extend(parse_names(b).unwrap());
    assert_eq!(parse_names(&joined).unwrap(), expected);
    assert_eq!(expected.len(), 3);
}
