//! Read-only committed changes against a workspace repository's configured default branch.
//! The baseline is the merge-base of HEAD and the locally cached remote-tracking ref;
//! no fetch, checkout, or index refresh is asked of git here.
use vstd::prelude::*;
use vstd::utf8::{decode_utf8, valid_utf8};

use crate::strs::{
    lines, lines_of, views, opt_string_view,
    split_on, lemma_split_step, lemma_split_last, trim, trimmed, strip_eol, without_eol, str_eq,
    cat, cat3,
};

verus! {

/// One path changed between the merge-base and HEAD.
#[derive(Clone, Debug, PartialEq, Eq)]
pub struct ChangedFile {
    pub path: String,
    pub previous: Option<String>,
    pub status: char,
}

/// A changed file in terms of character sequences.
pub struct ChangedFileView {
    pub path: Seq<char>,
    pub previous: Option<Seq<char>>,
    pub status: char,
}

impl View for ChangedFile {
    type V = ChangedFileView;

    open spec fn view(&self) -> ChangedFileView {
        ChangedFileView { path: self.path@, previous: opt_string_view(self.previous), status: self.status }
    }
}

pub open spec fn files_view(v: Seq<ChangedFile>) -> Seq<ChangedFileView> {
    v.map_values(|f: ChangedFile| f@)
}

/// An ASCII hexadecimal digit, as `u8::is_ascii_hexdigit` accepts it.
pub open spec fn is_hex_char(c: char) -> bool {
    ('0' <= c && c <= '9') || ('a' <= c && c <= 'f') || ('A' <= c && c <= 'F')
}

/// A complete object ID: 40 (SHA-1) or 64 (SHA-256) hexadecimal digits.
pub open spec fn is_object_id(s: Seq<char>) -> bool {
    (s.len() == 40 || s.len() == 64) && forall|i: int|
        0 <= i < s.len() ==> is_hex_char(#[trigger] s[i])
}

pub open spec fn invalid_object_id_text() -> Seq<char> {
    "git returned an invalid object ID"@
}

/// Accept only complete object IDs, never a revision expression from a control file.
pub fn object_id(value: &str) -> (r: Result<&str, String>)
    ensures
        r is Ok <==> is_object_id(value@),
        r matches Ok(v) ==> v@ == value@,
        r matches Err(e) ==> e@ == invalid_object_id_text(),
{
    let n = value.unicode_len();
    if n != 40 && n != 64 {
        return Err(String::from_str("git returned an invalid object ID"));
    }
    let mut i: usize = 0;
    while i < n
        invariant
            n == value@.len(),
            i <= n,
            forall|j: int| 0 <= j < i ==> is_hex_char(#[trigger] value@[j]),
        decreases n - i,
    {
        let c = value.get_char(i);
        if !(('0' <= c && c <= '9') || ('a' <= c && c <= 'f') || ('A' <= c && c <= 'F')) {
            assert(!is_hex_char(value@[i as int]));
            return Err(String::from_str("git returned an invalid object ID"));
        }
        i = i + 1;
    }
    Ok(value)
}

/// The text that `String::from_utf8_lossy` makes of bytes that are not valid UTF-8.
pub uninterp spec fn utf8_lossy(bytes: Seq<u8>) -> Seq<char>;

/// `String::from_utf8_lossy`: the decoded text of valid UTF-8, else `utf8_lossy`.
pub open spec fn decode_lossy(bytes: Seq<u8>) -> Seq<char> {
    if valid_utf8(bytes) {
        decode_utf8(bytes)
    } else {
        utf8_lossy(bytes)
    }
}

/// Calls `String::from_utf8_lossy`. Its documentation promises the decoded text for valid
/// UTF-8; what it makes of other bytes (replacement characters) is only named.
#[verifier::external_body]
fn from_utf8_lossy(bytes: &[u8]) -> (s: String)
    ensures
        valid_utf8(bytes@) ==> s@ == decode_utf8(bytes@),
        !valid_utf8(bytes@) ==> s@ == utf8_lossy(bytes@),
{
    String::from_utf8_lossy(bytes).into_owned()
}

/// The status letters that `git diff --name-status` reports.
pub open spec fn is_status_code(b: u8) -> bool {
    b == 65 || b == 77 || b == 68 || b == 84 || b == 82 || b == 67 || b == 85
}

/// Renames (`R`) and copies (`C`), which carry a source and a destination path.
pub open spec fn has_source(b: u8) -> bool {
    b == 82 || b == 67
}

pub open spec fn unterminated_text() -> Seq<char> {
    "git diff returned an unterminated name-status record"@
}

pub open spec fn incomplete_text() -> Seq<char> {
    "git diff returned an incomplete name-status record"@
}

pub open spec fn unknown_code_text() -> Seq<char> {
    "git diff returned an unknown name-status code"@
}

pub open spec fn no_destination_text() -> Seq<char> {
    "git diff returned a rename without a destination"@
}

pub open spec fn prepend<T>(x: T, r: Result<Seq<T>, Seq<char>>) -> Result<Seq<T>, Seq<char>> {
    match r {
        Ok(v) => Ok(seq![x] + v),
        Err(e) => Err(e),
    }
}

/// The records of `git diff --name-status -z`, given as its NUL-separated fields.
pub open spec fn parse_fields(f: Seq<Seq<u8>>) -> Result<Seq<ChangedFileView>, Seq<char>>
    decreases f.len(),
{
    if f.len() == 0 {
        Ok(seq![])
    } else if f[0].len() == 0 || f.len() < 2 {
        Err(incomplete_text())
    } else if !is_status_code(f[0][0]) {
        Err(unknown_code_text())
    } else if has_source(f[0][0]) {
        if f.len() < 3 {
            Err(no_destination_text())
        } else {
            prepend(
                ChangedFileView {
                    path: decode_lossy(f[2]),
                    previous: Some(decode_lossy(f[1])),
                    status: f[0][0] as char,
                },
                parse_fields(f.subrange(3, f.len() as int)),
            )
        }
    } else {
        prepend(
            ChangedFileView { path: decode_lossy(f[1]), previous: None, status: f[0][0] as char },
            parse_fields(f.subrange(2, f.len() as int)),
        )
    }
}

/// What `git diff --name-status -z` printed, as a list of changed files: each record is
/// a status field, then one path, or for a rename or copy the source then the destination;
/// every field ends in NUL.
pub open spec fn parse_names_spec(raw: Seq<u8>) -> Result<Seq<ChangedFileView>, Seq<char>> {
    if raw.len() == 0 {
        Ok(seq![])
    } else if raw[raw.len() - 1] != 0 {
        Err(unterminated_text())
    } else {
        parse_fields(split_on(raw.subrange(0, raw.len() - 1), 0u8))
    }
}

pub open spec fn slices_view(v: Seq<&[u8]>) -> Seq<Seq<u8>> {
    v.map_values(|f: &[u8]| f@)
}

/// `s.split(|&b| b == 0)`.
fn split_nul(s: &[u8]) -> (r: Vec<&[u8]>)
    ensures
        slices_view(r@) == split_on(s@, 0u8),
{
    let n = s.len();
    let mut out: Vec<&[u8]> = Vec::new();
    let mut start: usize = 0;
    let mut i: usize = 0;
    assert(s@.subrange(0, n as int) =~= s@);
    while i < n
        invariant
            n == s@.len(),
            start <= i <= n,
            forall|j: int| start <= j < i ==> s@[j] != 0u8,
            split_on(s@, 0u8) == slices_view(out@) + split_on(
                s@.subrange(start as int, n as int),
                0u8,
            ),
        decreases n - i,
    {
        if s[i] == 0 {
            let ghost t = s@.subrange(start as int, n as int);
            proof {
                lemma_split_step(t, 0u8, i - start);
                assert(t.subrange(0, i - start) =~= s@.subrange(start as int, i as int));
                assert(t.subrange(i - start + 1, t.len() as int) =~= s@.subrange(
                    i + 1,
                    n as int,
                ));
            }
            let ghost before = out@;
            out.push(&s[start..i]);
            assert(slices_view(out@) =~= slices_view(before) + seq![
                s@.subrange(start as int, i as int),
            ]);
            start = i + 1;
        }
        i = i + 1;
    }
    let ghost t = s@.subrange(start as int, n as int);
    proof {
        lemma_split_last(t, 0u8);
    }
    let ghost before = out@;
    out.push(&s[start..n]);
    assert(slices_view(out@) =~= slices_view(before) + seq![t]);
    out
}

pub open spec fn files_result_view(r: Result<Vec<ChangedFile>, String>) -> Result<
    Seq<ChangedFileView>,
    Seq<char>,
> {
    match r {
        Ok(v) => Ok(files_view(v@)),
        Err(e) => Err(e@),
    }
}

/// Parses what `git diff --name-status -z` printed.
pub fn parse_names(raw: &[u8]) -> (r: Result<Vec<ChangedFile>, String>)
    ensures
        files_result_view(r) == parse_names_spec(raw@),
{
    if raw.len() == 0 {
        let v: Vec<ChangedFile> = Vec::new();
        assert(files_view(v@) =~= seq![]);
        return Ok(v);
    }
    if raw[raw.len() - 1] != 0 {
        return Err(String::from_str("git diff returned an unterminated name-status record"));
    }
    let fields = split_nul(&raw[0..raw.len() - 1]);
    let ghost f = slices_view(fields@);
    let mut files: Vec<ChangedFile> = Vec::new();
    let mut j: usize = 0;
    assert(f.subrange(0, f.len() as int) =~= f);
    assert(files_view(files@) =~= seq![]);
    while j < fields.len()
        invariant
            f == slices_view(fields@),
            f == split_on(raw@.subrange(0, raw@.len() - 1), 0u8),
            j <= fields.len(),
            parse_names_spec(raw@) == prepend_all(
                files_view(files@),
                parse_fields(f.subrange(j as int, f.len() as int)),
            ),
        decreases fields.len() - j,
    {
        let ghost rest = f.subrange(j as int, f.len() as int);
        let status = fields[j];
        assert(status@ == rest[0]);
        if status.len() == 0 || j + 1 >= fields.len() {
            return Err(String::from_str("git diff returned an incomplete name-status record"));
        }
        let code = status[0];
        if !(code == 65 || code == 77 || code == 68 || code == 84 || code == 82 || code == 67
            || code == 85) {
            return Err(String::from_str("git diff returned an unknown name-status code"));
        }
        let ghost before = files@;
        if code == 82 || code == 67 {
            if j + 2 >= fields.len() {
                return Err(String::from_str("git diff returned a rename without a destination"));
            }
            assert(fields[j as int + 1]@ == rest[1]);
            assert(fields[j as int + 2]@ == rest[2]);
            let previous = from_utf8_lossy(fields[j + 1]);
            let path = from_utf8_lossy(fields[j + 2]);
            files.push(ChangedFile { path, previous: Some(previous), status: code as char });
            assert(rest.subrange(3, rest.len() as int) =~= f.subrange(j + 3, f.len() as int));
            j = j + 3;
        } else {
            assert(fields[j as int + 1]@ == rest[1]);
            let path = from_utf8_lossy(fields[j + 1]);
            files.push(ChangedFile { path, previous: None, status: code as char });
            assert(rest.subrange(2, rest.len() as int) =~= f.subrange(j + 2, f.len() as int));
            j = j + 2;
        }
        proof {
            let x = files@[files@.len() - 1]@;
            assert(files_view(files@) =~= files_view(before) + seq![x]);
            lemma_prepend_all_assoc(files_view(before), x, parse_fields(f.subrange(j as int, f.len() as int)));
        }
    }
    assert(f.subrange(j as int, f.len() as int) =~= Seq::<Seq<u8>>::empty());
    assert(files_view(files@) + seq![] =~= files_view(files@));
    Ok(files)
}

/// `done` followed by whatever `r` holds.
pub open spec fn prepend_all<T>(done: Seq<T>, r: Result<Seq<T>, Seq<char>>) -> Result<
    Seq<T>,
    Seq<char>,
> {
    match r {
        Ok(v) => Ok(done + v),
        Err(e) => Err(e),
    }
}

proof fn lemma_prepend_all_assoc<T>(done: Seq<T>, x: T, r: Result<Seq<T>, Seq<char>>)
    ensures
        prepend_all(done, prepend(x, r)) == prepend_all(done + seq![x], r),
{
    if let Ok(v) = r {
        assert(done + (seq![x] + v) =~= (done + seq![x]) + v);
    }
}

/// What running `git` with some arguments reported.
pub struct GitOutput {
    /// Why the process could not be started, if it could not.
    pub spawn_error: Option<String>,
    /// Whether it exited successfully.
    pub success: bool,
    /// Its exit code, if it had one.
    pub code: Option<i32>,
    /// How its exit status reads (`ExitStatus`'s `Display`).
    pub status: String,
    pub stdout: Vec<u8>,
    pub stderr: Vec<u8>,
}

pub open spec fn no_common_ancestor_text() -> Seq<char> {
    "HEAD and the default branch have no common ancestor"@
}

/// The outcome of a git run whose first argument is `first`: its standard output when it
/// succeeded, else an error that names the command. `merge-base` exiting with 1 and
/// printing nothing means that there is no common ancestor.
pub open spec fn git_result_spec(first: Seq<char>, o: GitOutput) -> Result<Seq<u8>, Seq<char>> {
    match o.spawn_error {
        Some(e) => Err("git "@ + first + ": "@ + e@),
        None => if o.success {
            Ok(o.stdout@)
        } else if first == "merge-base"@ && o.code == Some(1i32) && o.stdout@.len() == 0
            && o.stderr@.len() == 0 {
            Err(no_common_ancestor_text())
        } else {
            let stderr = trim(decode_lossy(o.stderr@));
            Err(
                "git "@ + first + " failed: "@ + (if stderr.len() == 0 {
                    o.status@
                } else {
                    stderr
                }),
            )
        },
    }
}

/// Judges a git run whose first argument is `first`: `Ok` holds its standard output.
pub fn git_result<'a>(first: &str, o: &'a GitOutput) -> (r: Result<&'a [u8], String>)
    ensures
        match git_result_spec(first@, *o) {
            Ok(b) => r matches Ok(v) && v@ == b,
            Err(e) => r matches Err(m) && m@ == e,
        },
{
    match &o.spawn_error {
        Some(e) => {
            let mut m = cat3("git ", first, ": ");
            m.append(e.as_str());
            return Err(m);
        },
        None => {},
    }
    if o.success {
        return Ok(o.stdout.as_slice());
    }
    if str_eq(first, "merge-base") && o.code == Some(1i32) && o.stdout.len() == 0
        && o.stderr.len() == 0 {
        return Err(String::from_str("HEAD and the default branch have no common ancestor"));
    }
    let stderr = trimmed(from_utf8_lossy(o.stderr.as_slice()).as_str());
    let mut m = cat3("git ", first, " failed: ");
    if stderr.unicode_len() == 0 {
        m.append(o.status.as_str());
    } else {
        m.append(stderr.as_str());
    }
    Err(m)
}

/// How `String::from_utf8` describes bytes that are not valid UTF-8.
pub uninterp spec fn utf8_error_text(bytes: Seq<u8>) -> Seq<char>;

/// Calls `String::from_utf8`: it succeeds exactly on valid UTF-8, with the decoded text;
/// its error's description is only named.
#[verifier::external_body]
fn from_utf8(bytes: &[u8]) -> (r: Result<String, String>)
    ensures
        r is Ok <==> valid_utf8(bytes@),
        r matches Ok(s) ==> s@ == decode_utf8(bytes@),
        r matches Err(e) ==> e@ == utf8_error_text(bytes@),
{
    match String::from_utf8(bytes.to_vec()) {
        Ok(s) => Ok(s),
        Err(e) => Err(format!("{e}")),
    }
}

/// The text a git run printed, without trailing line ends, or its error.
pub open spec fn text_spec(first: Seq<char>, o: GitOutput) -> Result<Seq<char>, Seq<char>> {
    match git_result_spec(first, o) {
        Err(e) => Err(e),
        Ok(b) => if valid_utf8(b) {
            Ok(strip_eol(decode_utf8(b)))
        } else {
            Err("git "@ + first + " returned non-UTF-8 text: "@ + utf8_error_text(b))
        },
    }
}

pub open spec fn text_result_view(r: Result<String, String>) -> Result<Seq<char>, Seq<char>> {
    match r {
        Ok(s) => Ok(s@),
        Err(e) => Err(e@),
    }
}

/// The text a git run printed, as `text_spec` says.
pub fn text(first: &str, o: &GitOutput) -> (r: Result<String, String>)
    ensures
        text_result_view(r) == text_spec(first@, *o),
{
    let bytes = git_result(first, o)?;
    match from_utf8(bytes) {
        Ok(s) => Ok(without_eol(s.as_str())),
        Err(e) => {
            let mut m = cat3("git ", first, " returned non-UTF-8 text: ");
            m.append(e.as_str());
            Err(m)
        },
    }
}

/// What was found of the committed changes, or why nothing could be.
#[derive(Clone, Debug)]
pub struct Delta {
    pub target_ref: String,
    pub target_oid: String,
    pub head_oid: String,
    pub base_oid: String,
    pub committed: Vec<ChangedFile>,
    pub issue: Option<String>,
}

/// A delta in terms of character sequences.
pub struct DeltaView {
    pub target_ref: Seq<char>,
    pub target_oid: Seq<char>,
    pub head_oid: Seq<char>,
    pub base_oid: Seq<char>,
    pub committed: Seq<ChangedFileView>,
    pub issue: Option<Seq<char>>,
}

impl View for Delta {
    type V = DeltaView;

    open spec fn view(&self) -> DeltaView {
        DeltaView {
            target_ref: self.target_ref@,
            target_oid: self.target_oid@,
            head_oid: self.head_oid@,
            base_oid: self.base_oid@,
            committed: files_view(self.committed@),
            issue: opt_string_view(self.issue),
        }
    }
}

pub open spec fn empty_delta() -> DeltaView {
    DeltaView {
        target_ref: seq![],
        target_oid: seq![],
        head_oid: seq![],
        base_oid: seq![],
        committed: seq![],
        issue: None,
    }
}

/// `d` as the inspection leaves it when it stops on `issue`: no committed changes.
pub open spec fn failed(d: DeltaView, issue: Seq<char>) -> DeltaView {
    DeltaView { committed: seq![], issue: Some(issue), ..d }
}

impl Delta {
    /// A delta with no ref, no object IDs, no changes and no issue.
    pub fn empty() -> (d: Delta)
        ensures
            d@ == empty_delta(),
    {
        let d = Delta {
            target_ref: String::new(),
            target_oid: String::new(),
            head_oid: String::new(),
            base_oid: String::new(),
            committed: Vec::new(),
            issue: None,
        };
        assert(files_view(d.committed@) =~= seq![]);
        d
    }
}

fn fail(d: Delta, issue: String) -> (r: Delta)
    ensures
        r@ == failed(d@, issue@),
{
    let r = Delta { committed: Vec::new(), issue: Some(issue), ..d };
    assert(files_view(r.committed@) =~= seq![]);
    r
}

/// Where an inspection stands: a git command to run next, or the result.
pub enum Step {
    Ask(Seq<Seq<char>>),
    Finish(DeltaView),
}

/// The next git command to run (its arguments), or the finished delta.
pub enum Progress {
    Run(Vec<String>),
    Done(Delta),
}

impl View for Progress {
    type V = Step;

    open spec fn view(&self) -> Step {
        match self {
            Progress::Run(a) => Step::Ask(views(a@)),
            Progress::Done(d) => Step::Finish(d@),
        }
    }
}

pub open spec fn invalid_target_text() -> Seq<char> {
    "default branch or remote URL is missing or invalid"@
}

pub open spec fn multiple_bases_text() -> Seq<char> {
    "HEAD and the default branch have multiple merge bases"@
}

pub open spec fn moved_text() -> Seq<char> {
    "HEAD or the cached default-branch ref moved during inspection; refresh the overview"@
}

pub open spec fn call_remotes() -> Seq<Seq<char>> {
    seq!["remote"@]
}

pub open spec fn call_remote_url(remote: Seq<char>) -> Seq<Seq<char>> {
    seq!["config"@, "--get"@, "remote."@ + remote + ".url"@]
}

pub open spec fn call_check_ref(target_ref: Seq<char>) -> Seq<Seq<char>> {
    seq!["check-ref-format"@, target_ref]
}

pub open spec fn call_verify(rev: Seq<char>) -> Seq<Seq<char>> {
    seq!["rev-parse"@, "--verify"@, rev]
}

pub open spec fn commit_of(rev: Seq<char>) -> Seq<char> {
    rev + "^{commit}"@
}

pub open spec fn head_commit() -> Seq<char> {
    "HEAD^{commit}"@
}

pub open spec fn call_merge_base(head: Seq<char>, target: Seq<char>) -> Seq<Seq<char>> {
    seq!["merge-base"@, "--all"@, head, target]
}

pub open spec fn call_diff(base: Seq<char>, head: Seq<char>) -> Seq<Seq<char>> {
    seq!["diff"@, "--name-status"@, "-z"@, "--find-renames"@, base, head, "--"@]
}

/// The remote-tracking ref of `branch` on `remote`.
pub open spec fn tracking_ref(remote: Seq<char>, branch: Seq<char>) -> Seq<char> {
    "refs/remotes/"@ + remote + "/"@ + branch
}

/// An inspection of the changes that HEAD commits on top of its merge-base with the local
/// remote-tracking ref of `branch` on the remote whose URL is `url`, given the outputs `rs`
/// of the git commands it asked for so far, in order.
pub open spec fn inspect_spec(url: Seq<char>, branch: Seq<char>, rs: Seq<GitOutput>) -> Step {
    if url.len() == 0 || branch.len() == 0 || branch[0] == '-' {
        Step::Finish(failed(empty_delta(), invalid_target_text()))
    } else if rs.len() == 0 {
        Step::Ask(call_remotes())
    } else {
        match text_spec("remote"@, rs[0]) {
            Err(e) => Step::Finish(failed(empty_delta(), e)),
            Ok(t) => remote_stage(url, branch, rs, lines(t), 0, seq![]),
        }
    }
}

/// Asks each remote's URL in turn, collecting the remotes whose URL is `url`.
pub open spec fn remote_stage(
    url: Seq<char>,
    branch: Seq<char>,
    rs: Seq<GitOutput>,
    remotes: Seq<Seq<char>>,
    i: nat,
    matches: Seq<Seq<char>>,
) -> Step
    decreases remotes.len() - i,
{
    if i < remotes.len() {
        if rs.len() <= 1 + i {
            Step::Ask(call_remote_url(remotes[i as int]))
        } else {
            match text_spec("config"@, rs[1 + i as int]) {
                Err(e) => Step::Finish(failed(empty_delta(), e)),
                Ok(u) => remote_stage(
                    url,
                    branch,
                    rs,
                    remotes,
                    i + 1,
                    if u == url {
                        matches.push(remotes[i as int])
                    } else {
                        matches
                    },
                ),
            }
        }
    } else if matches.len() == 0 {
        Step::Finish(
            failed(empty_delta(), "no local Git remote matches configured URL "@ + url),
        )
    } else if matches.len() > 1 {
        Step::Finish(failed(empty_delta(), "multiple Git remotes match configured URL "@ + url))
    } else {
        check_stage(branch, rs, 1 + remotes.len(), tracking_ref(matches[0], branch))
    }
}

/// Asks git whether the tracking ref is well formed.
pub open spec fn check_stage(branch: Seq<char>, rs: Seq<GitOutput>, k: nat, target_ref: Seq<char>) -> Step {
    if rs.len() <= k {
        Step::Ask(call_check_ref(target_ref))
    } else if text_spec("check-ref-format"@, rs[k as int]) is Err {
        Step::Finish(failed(empty_delta(), "invalid default branch "@ + branch))
    } else {
        target_stage(rs, k + 1, DeltaView { target_ref, ..empty_delta() })
    }
}

/// Resolves the tracking ref to a commit.
pub open spec fn target_stage(rs: Seq<GitOutput>, k: nat, d: DeltaView) -> Step {
    if rs.len() <= k {
        Step::Ask(call_verify(commit_of(d.target_ref)))
    } else {
        match text_spec("rev-parse"@, rs[k as int]) {
            Err(e) => Step::Finish(failed(d, e)),
            Ok(t) => if !is_object_id(t) {
                Step::Finish(failed(d, invalid_object_id_text()))
            } else {
                head_stage(rs, k + 1, DeltaView { target_oid: t, ..d })
            },
        }
    }
}

/// Resolves HEAD to a commit.
pub open spec fn head_stage(rs: Seq<GitOutput>, k: nat, d: DeltaView) -> Step {
    if rs.len() <= k {
        Step::Ask(call_verify(head_commit()))
    } else {
        match text_spec("rev-parse"@, rs[k as int]) {
            Err(e) => Step::Finish(failed(d, e)),
            Ok(t) => if !is_object_id(t) {
                Step::Finish(failed(d, invalid_object_id_text()))
            } else {
                base_stage(rs, k + 1, DeltaView { head_oid: t, ..d })
            },
        }
    }
}

/// Asks for every merge-base of HEAD and the target; exactly one must exist.
pub open spec fn base_stage(rs: Seq<GitOutput>, k: nat, d: DeltaView) -> Step {
    if rs.len() <= k {
        Step::Ask(call_merge_base(d.head_oid, d.target_oid))
    } else {
        match text_spec("merge-base"@, rs[k as int]) {
            Err(e) => Step::Finish(failed(d, e)),
            Ok(t) => {
                let bases = lines(t);
                if bases.len() == 0 {
                    Step::Finish(failed(d, no_common_ancestor_text()))
                } else if bases.len() > 1 {
                    Step::Finish(failed(d, multiple_bases_text()))
                } else if !is_object_id(bases[0]) {
                    Step::Finish(failed(d, invalid_object_id_text()))
                } else {
                    diff_stage(rs, k + 1, DeltaView { base_oid: bases[0], ..d })
                }
            },
        }
    }
}

/// Asks for the paths changed between the merge-base and HEAD.
pub open spec fn diff_stage(rs: Seq<GitOutput>, k: nat, d: DeltaView) -> Step {
    if rs.len() <= k {
        Step::Ask(call_diff(d.base_oid, d.head_oid))
    } else {
        match git_result_spec("diff"@, rs[k as int]) {
            Err(e) => Step::Finish(failed(d, e)),
            Ok(b) => match parse_names_spec(b) {
                Err(e) => Step::Finish(failed(d, e)),
                Ok(files) => recheck_stage(rs, k + 1, d, files),
            },
        }
    }
}

/// Resolves the tracking ref again, to see that it did not move meanwhile.
pub open spec fn recheck_stage(
    rs: Seq<GitOutput>,
    k: nat,
    d: DeltaView,
    files: Seq<ChangedFileView>,
) -> Step {
    if rs.len() <= k {
        Step::Ask(call_verify(commit_of(d.target_ref)))
    } else {
        match text_spec("rev-parse"@, rs[k as int]) {
            Err(e) => Step::Finish(failed(d, e)),
            Ok(current_ref) => final_stage(rs, k + 1, d, files, current_ref),
        }
    }
}

/// Resolves HEAD again; the changes stand only if neither commit moved.
pub open spec fn final_stage(
    rs: Seq<GitOutput>,
    k: nat,
    d: DeltaView,
    files: Seq<ChangedFileView>,
    current_ref: Seq<char>,
) -> Step {
    if rs.len() <= k {
        Step::Ask(call_verify(head_commit()))
    } else {
        match text_spec("rev-parse"@, rs[k as int]) {
            Err(e) => Step::Finish(failed(d, e)),
            Ok(current_head) => if current_ref != d.target_oid || current_head != d.head_oid {
                Step::Finish(failed(d, moved_text()))
            } else {
                Step::Finish(DeltaView { committed: files, ..d })
            },
        }
    }
}

fn run1(a: &str) -> (p: Progress)
    ensures
        p@ == Step::Ask(seq![a@]),
{
    let v = vec![String::from_str(a)];
    assert(views(v@) =~= seq![a@]);
    Progress::Run(v)
}

fn run2(a: &str, b: String) -> (p: Progress)
    ensures
        p@ == Step::Ask(seq![a@, b@]),
{
    let v = vec![String::from_str(a), b];
    assert(views(v@) =~= seq![a@, b@]);
    Progress::Run(v)
}

fn run3(a: &str, b: &str, c: String) -> (p: Progress)
    ensures
        p@ == Step::Ask(seq![a@, b@, c@]),
{
    let v = vec![String::from_str(a), String::from_str(b), c];
    assert(views(v@) =~= seq![a@, b@, c@]);
    Progress::Run(v)
}

/// Compare HEAD to the merge-base with the configured remote's *local* default-branch ref,
/// given the outputs of the git commands asked for so far: the result is the next command
/// to run, or the delta. Any unavailable or ambiguous baseline is an issue, not an empty
/// clean result.
pub fn inspect(remote_url: &str, branch: &str, replies: &Vec<GitOutput>) -> (p: Progress)
    ensures
        p@ == inspect_spec(remote_url@, branch@, replies@),
{
    if remote_url.unicode_len() == 0 || branch.unicode_len() == 0 || branch.get_char(0) == '-' {
        return Progress::Done(
            fail(
                Delta::empty(),
                String::from_str("default branch or remote URL is missing or invalid"),
            ),
        );
    }
    if replies.len() == 0 {
        return run1("remote");
    }
    match text("remote", &replies[0]) {
        Err(e) => Progress::Done(fail(Delta::empty(), e)),
        Ok(t) => {
            let remotes = lines_of(t.as_str());
            find_remote(remote_url, branch, replies, &remotes)
        },
    }
}

fn find_remote(url: &str, branch: &str, rs: &Vec<GitOutput>, remotes: &Vec<String>) -> (p: Progress)
    ensures
        p@ == remote_stage(url@, branch@, rs@, views(remotes@), 0, seq![]),
{
    let ghost names = views(remotes@);
    let mut matches: Vec<String> = Vec::new();
    let mut i: usize = 0;
    assert(views(matches@) =~= seq![]);
    while i < remotes.len()
        invariant
            names == views(remotes@),
            i <= remotes.len(),
            remote_stage(url@, branch@, rs@, names, 0, seq![]) == remote_stage(
                url@,
                branch@,
                rs@,
                names,
                i as nat,
                views(matches@),
            ),
        decreases remotes.len() - i,
    {
        if rs.len() <= 1 + i {
            let key = cat3("remote.", remotes[i].as_str(), ".url");
            return run3("config", "--get", key);
        }
        match text("config", &rs[1 + i]) {
            Err(e) => {
                return Progress::Done(fail(Delta::empty(), e));
            },
            Ok(u) => {
                if str_eq(u.as_str(), url) {
                    let ghost before = matches@;
                    matches.push(remotes[i].clone());
                    assert(views(matches@) =~= views(before).push(names[i as int]));
                }
            },
        }
        i = i + 1;
    }
    if matches.len() == 0 {
        return Progress::Done(
            fail(Delta::empty(), cat("no local Git remote matches configured URL ", url)),
        );
    }
    if matches.len() > 1 {
        return Progress::Done(
            fail(Delta::empty(), cat("multiple Git remotes match configured URL ", url)),
        );
    }
    let mut target_ref = cat3("refs/remotes/", matches[0].as_str(), "/");
    target_ref.append(branch);
    if rs.len() <= remotes.len() {
        return run2("check-ref-format", target_ref);
    }
    check_ref(branch, rs, remotes.len() + 1, target_ref)
}

fn check_ref(branch: &str, rs: &Vec<GitOutput>, k: usize, target_ref: String) -> (p: Progress)
    ensures
        p@ == check_stage(branch@, rs@, k as nat, target_ref@),
{
    if rs.len() <= k {
        return run2("check-ref-format", target_ref);
    }
    if text("check-ref-format", &rs[k]).is_err() {
        return Progress::Done(fail(Delta::empty(), cat("invalid default branch ", branch)));
    }
    let mut d = Delta::empty();
    d.target_ref = target_ref;
    resolve_target(rs, k + 1, d)
}

fn resolve_target(rs: &Vec<GitOutput>, k: usize, d: Delta) -> (p: Progress)
    ensures
        p@ == target_stage(rs@, k as nat, d@),
{
    if rs.len() <= k {
        return run3("rev-parse", "--verify", cat(d.target_ref.as_str(), "^{commit}"));
    }
    match text("rev-parse", &rs[k]) {
        Err(e) => Progress::Done(fail(d, e)),
        Ok(t) => match object_id(t.as_str()) {
            Err(e) => Progress::Done(fail(d, e)),
            Ok(_) => {
                let mut d = d;
                d.target_oid = t;
                resolve_head(rs, k + 1, d)
            },
        },
    }
}

fn resolve_head(rs: &Vec<GitOutput>, k: usize, d: Delta) -> (p: Progress)
    ensures
        p@ == head_stage(rs@, k as nat, d@),
{
    if rs.len() <= k {
        return run3("rev-parse", "--verify", String::from_str("HEAD^{commit}"));
    }
    match text("rev-parse", &rs[k]) {
        Err(e) => Progress::Done(fail(d, e)),
        Ok(t) => match object_id(t.as_str()) {
            Err(e) => Progress::Done(fail(d, e)),
            Ok(_) => {
                let mut d = d;
                d.head_oid = t;
                find_base(rs, k + 1, d)
            },
        },
    }
}

fn find_base(rs: &Vec<GitOutput>, k: usize, d: Delta) -> (p: Progress)
    ensures
        p@ == base_stage(rs@, k as nat, d@),
{
    if rs.len() <= k {
        let v = vec![
            String::from_str("merge-base"),
            String::from_str("--all"),
            d.head_oid.clone(),
            d.target_oid.clone(),
        ];
        assert(views(v@) =~= call_merge_base(d@.head_oid, d@.target_oid));
        return Progress::Run(v);
    }
    match text("merge-base", &rs[k]) {
        Err(e) => Progress::Done(fail(d, e)),
        Ok(t) => {
            let bases = lines_of(t.as_str());
            if bases.len() == 0 {
                return Progress::Done(
                    fail(d, String::from_str("HEAD and the default branch have no common ancestor")),
                );
            }
            if bases.len() > 1 {
                return Progress::Done(
                    fail(
                        d,
                        String::from_str("HEAD and the default branch have multiple merge bases"),
                    ),
                );
            }
            assert(views(bases@)[0] == bases@[0]@);
            match object_id(bases[0].as_str()) {
                Err(e) => Progress::Done(fail(d, e)),
                Ok(_) => {
                    let mut d = d;
                    d.base_oid = bases[0].clone();
                    diff_names(rs, k + 1, d)
                },
            }
        },
    }
}

fn diff_names(rs: &Vec<GitOutput>, k: usize, d: Delta) -> (p: Progress)
    ensures
        p@ == diff_stage(rs@, k as nat, d@),
{
    if rs.len() <= k {
        let v = vec![
            String::from_str("diff"),
            String::from_str("--name-status"),
            String::from_str("-z"),
            String::from_str("--find-renames"),
            d.base_oid.clone(),
            d.head_oid.clone(),
            String::from_str("--"),
        ];
        assert(views(v@) =~= call_diff(d@.base_oid, d@.head_oid));
        return Progress::Run(v);
    }
    match git_result("diff", &rs[k]) {
        Err(e) => Progress::Done(fail(d, e)),
        Ok(bytes) => match parse_names(bytes) {
            Err(e) => Progress::Done(fail(d, e)),
            Ok(files) => recheck_target(rs, k + 1, d, files),
        },
    }
}

fn recheck_target(rs: &Vec<GitOutput>, k: usize, d: Delta, files: Vec<ChangedFile>) -> (p: Progress)
    ensures
        p@ == recheck_stage(rs@, k as nat, d@, files_view(files@)),
{
    if rs.len() <= k {
        return run3("rev-parse", "--verify", cat(d.target_ref.as_str(), "^{commit}"));
    }
    match text("rev-parse", &rs[k]) {
        Err(e) => Progress::Done(fail(d, e)),
        Ok(current_ref) => recheck_head(rs, k + 1, d, files, current_ref),
    }
}

fn recheck_head(
    rs: &Vec<GitOutput>,
    k: usize,
    d: Delta,
    files: Vec<ChangedFile>,
    current_ref: String,
) -> (p: Progress)
    ensures
        p@ == final_stage(rs@, k as nat, d@, files_view(files@), current_ref@),
{
    if rs.len() <= k {
        return run3("rev-parse", "--verify", String::from_str("HEAD^{commit}"));
    }
    match text("rev-parse", &rs[k]) {
        Err(e) => Progress::Done(fail(d, e)),
        Ok(current_head) => {
            if !str_eq(current_ref.as_str(), d.target_oid.as_str()) || !str_eq(
                current_head.as_str(),
                d.head_oid.as_str(),
            ) {
                return Progress::Done(
                    fail(
                        d,
                        String::from_str(
                            "HEAD or the cached default-branch ref moved during inspection; refresh the overview",
                        ),
                    ),
                );
            }
            let mut d = d;
            d.committed = files;
            Progress::Done(d)
        },
    }
}

/// The commands that only read: the inspection asks for no others.
pub open spec fn is_read_only(args: Seq<Seq<char>>) -> bool {
    args.len() > 0 && {
        let c = args[0];
        c == "remote"@ || c == "config"@ || c == "check-ref-format"@ || c == "rev-parse"@
            || c == "merge-base"@ || c == "diff"@
    }
}

/// A step that asks only for read-only commands and finishes either with an issue and no
/// changes, or without an issue and with complete object IDs for the target, HEAD and base.
pub open spec fn sound_step(s: Step) -> bool {
    match s {
        Step::Ask(args) => is_read_only(args),
        Step::Finish(d) => match d.issue {
            Some(_) => d.committed.len() == 0,
            None => is_object_id(d.target_oid) && is_object_id(d.head_oid) && is_object_id(
                d.base_oid,
            ),
        },
    }
}

/// A step that has finished stays as it is whatever further outputs are added.
pub open spec fn settled(s: Step, t: Step) -> bool {
    s is Finish ==> t == s
}

proof fn lemma_final_stage(
    rs: Seq<GitOutput>,
    more: Seq<GitOutput>,
    k: nat,
    d: DeltaView,
    files: Seq<ChangedFileView>,
    current_ref: Seq<char>,
)
    requires
        d.issue is None,
        is_object_id(d.target_oid),
        is_object_id(d.head_oid),
        is_object_id(d.base_oid),
    ensures
        sound_step(final_stage(rs, k, d, files, current_ref)),
        settled(final_stage(rs, k, d, files, current_ref), final_stage(rs + more, k, d, files, current_ref)),
{
    if k < rs.len() {
        assert((rs + more)[k as int] == rs[k as int]);
    }
}

proof fn lemma_recheck_stage(
    rs: Seq<GitOutput>,
    more: Seq<GitOutput>,
    k: nat,
    d: DeltaView,
    files: Seq<ChangedFileView>,
)
    requires
        d.issue is None,
        is_object_id(d.target_oid),
        is_object_id(d.head_oid),
        is_object_id(d.base_oid),
    ensures
        sound_step(recheck_stage(rs, k, d, files)),
        settled(recheck_stage(rs, k, d, files), recheck_stage(rs + more, k, d, files)),
{
    if k < rs.len() {
        assert((rs + more)[k as int] == rs[k as int]);
        if let Ok(current_ref) = text_spec("rev-parse"@, rs[k as int]) {
            lemma_final_stage(rs, more, k + 1, d, files, current_ref);
        }
    }
}

proof fn lemma_diff_stage(rs: Seq<GitOutput>, more: Seq<GitOutput>, k: nat, d: DeltaView)
    requires
        d.issue is None,
        is_object_id(d.target_oid),
        is_object_id(d.head_oid),
        is_object_id(d.base_oid),
    ensures
        sound_step(diff_stage(rs, k, d)),
        settled(diff_stage(rs, k, d), diff_stage(rs + more, k, d)),
{
    if k < rs.len() {
        assert((rs + more)[k as int] == rs[k as int]);
        if let Ok(b) = git_result_spec("diff"@, rs[k as int]) {
            if let Ok(files) = parse_names_spec(b) {
                lemma_recheck_stage(rs, more, k + 1, d, files);
            }
        }
    }
}

proof fn lemma_base_stage(rs: Seq<GitOutput>, more: Seq<GitOutput>, k: nat, d: DeltaView)
    requires
        d.issue is None,
        is_object_id(d.target_oid),
        is_object_id(d.head_oid),
    ensures
        sound_step(base_stage(rs, k, d)),
        settled(base_stage(rs, k, d), base_stage(rs + more, k, d)),
{
    if k < rs.len() {
        assert((rs + more)[k as int] == rs[k as int]);
        if let Ok(t) = text_spec("merge-base"@, rs[k as int]) {
            let bases = lines(t);
            if bases.len() == 1 && is_object_id(bases[0]) {
                lemma_diff_stage(rs, more, k + 1, DeltaView { base_oid: bases[0], ..d });
            }
        }
    }
}

proof fn lemma_head_stage(rs: Seq<GitOutput>, more: Seq<GitOutput>, k: nat, d: DeltaView)
    requires
        d.issue is None,
        is_object_id(d.target_oid),
    ensures
        sound_step(head_stage(rs, k, d)),
        settled(head_stage(rs, k, d), head_stage(rs + more, k, d)),
{
    if k < rs.len() {
        assert((rs + more)[k as int] == rs[k as int]);
        if let Ok(t) = text_spec("rev-parse"@, rs[k as int]) {
            if is_object_id(t) {
                lemma_base_stage(rs, more, k + 1, DeltaView { head_oid: t, ..d });
            }
        }
    }
}

proof fn lemma_target_stage(rs: Seq<GitOutput>, more: Seq<GitOutput>, k: nat, d: DeltaView)
    requires
        d.issue is None,
    ensures
        sound_step(target_stage(rs, k, d)),
        settled(target_stage(rs, k, d), target_stage(rs + more, k, d)),
{
    if k < rs.len() {
        assert((rs + more)[k as int] == rs[k as int]);
        if let Ok(t) = text_spec("rev-parse"@, rs[k as int]) {
            if is_object_id(t) {
                lemma_head_stage(rs, more, k + 1, DeltaView { target_oid: t, ..d });
            }
        }
    }
}

proof fn lemma_check_stage(
    branch: Seq<char>,
    rs: Seq<GitOutput>,
    more: Seq<GitOutput>,
    k: nat,
    target_ref: Seq<char>,
)
    ensures
        sound_step(check_stage(branch, rs, k, target_ref)),
        settled(check_stage(branch, rs, k, target_ref), check_stage(branch, rs + more, k, target_ref)),
{
    if k < rs.len() {
        assert((rs + more)[k as int] == rs[k as int]);
        lemma_target_stage(rs, more, k + 1, DeltaView { target_ref, ..empty_delta() });
    }
}

proof fn lemma_remote_stage(
    url: Seq<char>,
    branch: Seq<char>,
    rs: Seq<GitOutput>,
    more: Seq<GitOutput>,
    remotes: Seq<Seq<char>>,
    i: nat,
    matches: Seq<Seq<char>>,
)
    ensures
        sound_step(remote_stage(url, branch, rs, remotes, i, matches)),
        settled(
            remote_stage(url, branch, rs, remotes, i, matches),
            remote_stage(url, branch, rs + more, remotes, i, matches),
        ),
    decreases remotes.len() - i,
{
    if i < remotes.len() {
        if 1 + i < rs.len() {
            assert((rs + more)[1 + i as int] == rs[1 + i as int]);
            if let Ok(u) = text_spec("config"@, rs[1 + i as int]) {
                lemma_remote_stage(
                    url,
                    branch,
                    rs,
                    more,
                    remotes,
                    i + 1,
                    if u == url {
                        matches.push(remotes[i as int])
                    } else {
                        matches
                    },
                );
            }
        }
    } else if matches.len() == 1 {
        lemma_check_stage(branch, rs, more, 1 + remotes.len(), tracking_ref(matches[0], branch));
    }
}

/// Every step of an inspection asks only for read-only git commands (no fetch, checkout or
/// index refresh); it finishes either with an issue and no changes (an unavailable or
/// ambiguous baseline is never an empty clean result) or without one and with complete
/// object IDs for the target, HEAD and the merge-base; and once it has finished, outputs
/// added after the last one asked for change nothing.
pub proof fn law_inspection_sound(
    url: Seq<char>,
    branch: Seq<char>,
    rs: Seq<GitOutput>,
    more: Seq<GitOutput>,
)
    ensures
        sound_step(inspect_spec(url, branch, rs)),
        settled(inspect_spec(url, branch, rs), inspect_spec(url, branch, rs + more)),
{
    if !(url.len() == 0 || branch.len() == 0 || branch[0] == '-') {
        if rs.len() > 0 {
            assert((rs + more)[0] == rs[0]);
            if let Ok(t) = text_spec("remote"@, rs[0]) {
                lemma_remote_stage(url, branch, rs, more, lines(t), 0, seq![]);
            }
        }
    }
}

/// The command whose output is reply number `n`, for an inspection of `r` remotes: the
/// list of remotes, the URL of each, then the check of the tracking ref, the target and
/// HEAD resolved, the merge-bases, the diff, and the target and HEAD resolved again.
pub open spec fn command_at(r: nat, n: nat) -> Seq<char> {
    if n == 0 {
        "remote"@
    } else if n <= r {
        "config"@
    } else if n == r + 1 {
        "check-ref-format"@
    } else if n == r + 4 {
        "merge-base"@
    } else if n == r + 5 {
        "diff"@
    } else {
        "rev-parse"@
    }
}

/// A step that asks, after `n` replies, for the command `command_at(r, n)`, and only while
/// `n` is at most `r + 7`.
pub open spec fn asks_in_order(s: Step, n: nat, r: nat) -> bool {
    s matches Step::Ask(a) ==> n <= r + 7 && a.len() > 0 && a[0] == command_at(r, n)
}

/// The number of remotes that the first reply lists.
pub open spec fn remote_count(rs: Seq<GitOutput>) -> nat {
    if rs.len() > 0 && text_spec("remote"@, rs[0]) is Ok {
        lines(text_spec("remote"@, rs[0])->Ok_0).len()
    } else {
        0
    }
}

proof fn lemma_final_asks(rs: Seq<GitOutput>, r: nat, d: DeltaView, files: Seq<ChangedFileView>, current_ref: Seq<char>)
    requires
        r + 7 <= rs.len(),
    ensures
        asks_in_order(final_stage(rs, r + 7, d, files, current_ref), rs.len(), r),
{
}

proof fn lemma_recheck_asks(rs: Seq<GitOutput>, r: nat, d: DeltaView, files: Seq<ChangedFileView>)
    requires
        r + 6 <= rs.len(),
    ensures
        asks_in_order(recheck_stage(rs, r + 6, d, files), rs.len(), r),
{
    if r + 6 < rs.len() {
        if let Ok(current_ref) = text_spec("rev-parse"@, rs[r + 6 as int]) {
            lemma_final_asks(rs, r, d, files, current_ref);
        }
    }
}

proof fn lemma_diff_asks(rs: Seq<GitOutput>, r: nat, d: DeltaView)
    requires
        r + 5 <= rs.len(),
    ensures
        asks_in_order(diff_stage(rs, r + 5, d), rs.len(), r),
{
    if r + 5 < rs.len() {
        if let Ok(b) = git_result_spec("diff"@, rs[r + 5 as int]) {
            if let Ok(files) = parse_names_spec(b) {
                lemma_recheck_asks(rs, r, d, files);
            }
        }
    }
}

proof fn lemma_base_asks(rs: Seq<GitOutput>, r: nat, d: DeltaView)
    requires
        r + 4 <= rs.len(),
    ensures
        asks_in_order(base_stage(rs, r + 4, d), rs.len(), r),
{
    if r + 4 < rs.len() {
        if let Ok(t) = text_spec("merge-base"@, rs[r + 4 as int]) {
            let bases = lines(t);
            if bases.len() == 1 && is_object_id(bases[0]) {
                lemma_diff_asks(rs, r, DeltaView { base_oid: bases[0], ..d });
            }
        }
    }
}

proof fn lemma_head_asks(rs: Seq<GitOutput>, r: nat, d: DeltaView)
    requires
        r + 3 <= rs.len(),
    ensures
        asks_in_order(head_stage(rs, r + 3, d), rs.len(), r),
{
    if r + 3 < rs.len() {
        if let Ok(t) = text_spec("rev-parse"@, rs[r + 3 as int]) {
            if is_object_id(t) {
                lemma_base_asks(rs, r, DeltaView { head_oid: t, ..d });
            }
        }
    }
}

proof fn lemma_target_asks(rs: Seq<GitOutput>, r: nat, d: DeltaView)
    requires
        r + 2 <= rs.len(),
    ensures
        asks_in_order(target_stage(rs, r + 2, d), rs.len(), r),
{
    if r + 2 < rs.len() {
        if let Ok(t) = text_spec("rev-parse"@, rs[r + 2 as int]) {
            if is_object_id(t) {
                lemma_head_asks(rs, r, DeltaView { target_oid: t, ..d });
            }
        }
    }
}

proof fn lemma_check_asks(branch: Seq<char>, rs: Seq<GitOutput>, r: nat, target_ref: Seq<char>)
    requires
        r + 1 <= rs.len(),
    ensures
        asks_in_order(check_stage(branch, rs, r + 1, target_ref), rs.len(), r),
{
    if r + 1 < rs.len() {
        lemma_target_asks(rs, r, DeltaView { target_ref, ..empty_delta() });
    }
}

proof fn lemma_remote_asks(
    url: Seq<char>,
    branch: Seq<char>,
    rs: Seq<GitOutput>,
    remotes: Seq<Seq<char>>,
    i: nat,
    matches: Seq<Seq<char>>,
)
    requires
        i <= remotes.len(),
        1 + i <= rs.len(),
    ensures
        asks_in_order(remote_stage(url, branch, rs, remotes, i, matches), rs.len(), remotes.len()),
    decreases remotes.len() - i,
{
    if i < remotes.len() {
        if 1 + i < rs.len() {
            if let Ok(u) = text_spec("config"@, rs[1 + i as int]) {
                lemma_remote_asks(
                    url,
                    branch,
                    rs,
                    remotes,
                    i + 1,
                    if u == url {
                        matches.push(remotes[i as int])
                    } else {
                        matches
                    },
                );
            }
        }
    } else if matches.len() == 1 {
        lemma_check_asks(branch, rs, remotes.len(), tracking_ref(matches[0], branch));
    }
}

/// An inspection runs a bounded sequence of git commands: while it asks for more, it has
/// read every reply given so far, the next reply is that of the command `command_at`
/// names for its position, and no more than the number of remotes plus 7 replies have been
/// given. Each further reply therefore brings it closer to its end.
pub proof fn law_inspection_finishes(url: Seq<char>, branch: Seq<char>, rs: Seq<GitOutput>)
    ensures
        asks_in_order(inspect_spec(url, branch, rs), rs.len(), remote_count(rs)),
{
    if !(url.len() == 0 || branch.len() == 0 || branch[0] == '-') && rs.len() > 0 {
        if let Ok(t) = text_spec("remote"@, rs[0]) {
            lemma_remote_asks(url, branch, rs, lines(t), 0, seq![]);
        }
    }
}


/// Reply `o` of `git merge-base --all` names exactly one merge-base, `base`.
pub open spec fn sole_base(o: GitOutput, base: Seq<char>) -> bool {
    text_spec("merge-base"@, o) matches Ok(t) && lines(t) == seq![base]
}

/// After `r` remote replies, the target's reply resolved it to `d.target_oid`, HEAD's to
/// `d.head_oid`, and the merge-base reply named `d.base_oid` alone.
pub open spec fn first_resolution(rs: Seq<GitOutput>, r: nat, d: DeltaView) -> bool {
    r + 4 < rs.len() && text_spec("rev-parse"@, rs[r + 2 as int]) == Result::<Seq<char>, Seq<char>>::Ok(d.target_oid)
        && text_spec("rev-parse"@, rs[r + 3 as int]) == Result::<Seq<char>, Seq<char>>::Ok(d.head_oid) && sole_base(
        rs[r + 4 as int],
        d.base_oid,
    )
}

/// The reply to the diff parsed, as `files` where they are given.
pub open spec fn diff_parsed(o: GitOutput) -> Result<Seq<ChangedFileView>, Seq<char>> {
    match git_result_spec("diff"@, o) {
        Ok(b) => parse_names_spec(b),
        Err(e) => Err(e),
    }
}

/// `a` is the diff from the single merge-base of reply `r + 4` to the HEAD of reply `r + 3`,
/// asked after exactly `r + 5` replies.
pub open spec fn diff_from_base(rs: Seq<GitOutput>, r: nat, a: Seq<Seq<char>>) -> bool {
    rs.len() == r + 5 && (text_spec("rev-parse"@, rs[r + 3 as int]) matches Ok(head) && (
    text_spec("merge-base"@, rs[r + 4 as int]) matches Ok(t) && lines(t).len() == 1 && a == seq![
        "diff"@,
        "--name-status"@,
        "-z"@,
        "--find-renames"@,
        lines(t)[0],
        head,
        "--"@,
    ]))
}

/// `a` asks for every merge-base of the commits that HEAD (reply `r + 3`) and the target
/// (reply `r + 2`) resolved to, after exactly `r + 4` replies.
pub open spec fn merge_base_of_resolved(rs: Seq<GitOutput>, r: nat, a: Seq<Seq<char>>) -> bool {
    rs.len() == r + 4 && (text_spec("rev-parse"@, rs[r + 3 as int]) matches Ok(head) && (
    text_spec("rev-parse"@, rs[r + 2 as int]) matches Ok(target) && a == seq![
        "merge-base"@,
        "--all"@,
        head,
        target,
    ]))
}

/// `d` came out clean: the target and HEAD resolved the second time to the commits they
/// resolved to the first time, and `d` holds those, the merge-base and the parsed diff.
pub open spec fn finished_clean(rs: Seq<GitOutput>, r: nat, d: DeltaView) -> bool {
    first_resolution(rs, r, d) && r + 7 < rs.len() && diff_parsed(rs[r + 5 as int]) == Result::<Seq<ChangedFileView>, Seq<char>>::Ok(
        d.committed,
    ) && text_spec("rev-parse"@, rs[r + 6 as int]) == Result::<Seq<char>, Seq<char>>::Ok(d.target_oid) && text_spec(
        "rev-parse"@,
        rs[r + 7 as int],
    ) == Result::<Seq<char>, Seq<char>>::Ok(d.head_oid)
}

/// `d` reports a move: the diff parsed, both commits resolved again, and the target or
/// HEAD resolved to another commit than the first time.
pub open spec fn finished_moved(rs: Seq<GitOutput>, r: nat, d: DeltaView) -> bool {
    first_resolution(rs, r, d) && r + 7 < rs.len() && diff_parsed(rs[r + 5 as int]) is Ok
        && text_spec("rev-parse"@, rs[r + 6 as int]) is Ok && text_spec(
        "rev-parse"@,
        rs[r + 7 as int],
    ) is Ok && (text_spec("rev-parse"@, rs[r + 6 as int]) != text_spec(
        "rev-parse"@,
        rs[r + 2 as int],
    ) || text_spec("rev-parse"@, rs[r + 7 as int]) != text_spec("rev-parse"@, rs[r + 3 as int]))
        && d.committed.len() == 0
}

/// What a step of an inspection with `r` remotes shows of the replies: the merge-bases it
/// asks for are those of the resolved commits, a diff it asks for runs from the merge-base
/// to HEAD, HEAD is resolved as a commit, a clean finish has seen nothing move, and a move
/// is reported only when something moved.
pub open spec fn faithful(rs: Seq<GitOutput>, r: nat, s: Step) -> bool {
    match s {
        Step::Ask(a) => (a.len() > 0 && a[0] == "diff"@ ==> diff_from_base(rs, r, a)) && (a.len()
            > 0 && a[0] == "merge-base"@ ==> merge_base_of_resolved(rs, r, a)) && (rs.len() == r + 3
            || rs.len() == r + 7 ==> a == seq!["rev-parse"@, "--verify"@, "HEAD^{commit}"@]),
        Step::Finish(d) => (d.issue is None ==> finished_clean(rs, r, d)) && (d.issue == Some(
            moved_text(),
        ) ==> finished_moved(rs, r, d)),
    }
}

proof fn lemma_git_prefix_not_moved(first: Seq<char>, rest: Seq<char>)
    ensures
        "git "@ + first + rest != moved_text(),
{
    reveal_strlit("git ");
    reveal_strlit("HEAD or the cached default-branch ref moved during inspection; refresh the overview");
    let e = "git "@ + first + rest;
    assert(e[0] == 'g');
    assert(moved_text()[0] == 'H');
}

proof fn lemma_git_result_not_moved(first: Seq<char>, o: GitOutput)
    ensures
        git_result_spec(first, o) matches Err(e) ==> e != moved_text(),
{
    reveal_strlit("HEAD or the cached default-branch ref moved during inspection; refresh the overview");
    reveal_strlit("HEAD and the default branch have no common ancestor");
    assert(moved_text()[5] == 'o');
    assert(no_common_ancestor_text()[5] == 'a');
    if let Some(e) = o.spawn_error {
        lemma_git_prefix_not_moved(first, ": "@ + e@);
        assert("git "@ + first + ": "@ + e@ =~= "git "@ + first + (": "@ + e@));
    } else if !o.success {
        let stderr = trim(decode_lossy(o.stderr@));
        let tail = if stderr.len() == 0 {
            o.status@
        } else {
            stderr
        };
        lemma_git_prefix_not_moved(first, " failed: "@ + tail);
        assert("git "@ + first + " failed: "@ + tail =~= "git "@ + first + (" failed: "@ + tail));
    }
}

proof fn lemma_text_not_moved(first: Seq<char>, o: GitOutput)
    ensures
        text_spec(first, o) matches Err(e) ==> e != moved_text(),
{
    lemma_git_result_not_moved(first, o);
    if let Ok(b) = git_result_spec(first, o) {
        let m = " returned non-UTF-8 text: "@ + utf8_error_text(b);
        lemma_git_prefix_not_moved(first, m);
        assert("git "@ + first + " returned non-UTF-8 text: "@ + utf8_error_text(b) =~= "git "@
            + first + m);
    }
}

proof fn lemma_fields_not_moved(f: Seq<Seq<u8>>)
    ensures
        parse_fields(f) matches Err(e) ==> e != moved_text(),
    decreases f.len(),
{
    reveal_strlit("HEAD or the cached default-branch ref moved during inspection; refresh the overview");
    reveal_strlit("git diff returned an incomplete name-status record");
    reveal_strlit("git diff returned an unknown name-status code");
    reveal_strlit("git diff returned a rename without a destination");
    assert(moved_text()[0] == 'H');
    assert(incomplete_text()[0] == 'g');
    assert(unknown_code_text()[0] == 'g');
    assert(no_destination_text()[0] == 'g');
    if f.len() > 0 && f[0].len() > 0 && f.len() >= 2 && is_status_code(f[0][0]) {
        if has_source(f[0][0]) {
            if f.len() >= 3 {
                lemma_fields_not_moved(f.subrange(3, f.len() as int));
            }
        } else {
            lemma_fields_not_moved(f.subrange(2, f.len() as int));
        }
    }
}

proof fn lemma_diff_not_moved(o: GitOutput)
    ensures
        diff_parsed(o) matches Err(e) ==> e != moved_text(),
{
    lemma_git_result_not_moved("diff"@, o);
    if let Ok(raw) = git_result_spec("diff"@, o) {
        reveal_strlit("HEAD or the cached default-branch ref moved during inspection; refresh the overview");
        reveal_strlit("git diff returned an unterminated name-status record");
        assert(moved_text()[0] == 'H');
        assert(unterminated_text()[0] == 'g');
        if raw.len() > 0 && raw[raw.len() - 1] == 0 {
            lemma_fields_not_moved(split_on(raw.subrange(0, raw.len() - 1), 0u8));
        }
    }
}

/// The commands an inspection asks for are told apart by their first argument.
proof fn lemma_commands_distinct()
    ensures
        "diff"@ != "remote"@,
        "diff"@ != "config"@,
        "diff"@ != "check-ref-format"@,
        "diff"@ != "rev-parse"@,
        "diff"@ != "merge-base"@,
        "merge-base"@ != "remote"@,
        "merge-base"@ != "config"@,
        "merge-base"@ != "check-ref-format"@,
        "merge-base"@ != "rev-parse"@,
{
    reveal_strlit("diff");
    reveal_strlit("remote");
    reveal_strlit("config");
    reveal_strlit("check-ref-format");
    reveal_strlit("rev-parse");
    reveal_strlit("merge-base");
    assert("diff"@[0] != "remote"@[0]);
    assert("diff"@[0] != "config"@[0]);
    assert("diff"@[0] != "check-ref-format"@[0]);
    assert("diff"@[0] != "rev-parse"@[0]);
    assert("diff"@[0] != "merge-base"@[0]);
    assert("merge-base"@[0] != "remote"@[0]);
    assert("merge-base"@[0] != "config"@[0]);
    assert("merge-base"@[0] != "check-ref-format"@[0]);
    assert("merge-base"@[0] != "rev-parse"@[0]);
}

proof fn lemma_final_faithful(
    rs: Seq<GitOutput>,
    r: nat,
    d: DeltaView,
    files: Seq<ChangedFileView>,
    current_ref: Seq<char>,
)
    requires
        d.issue is None,
        r + 7 <= rs.len(),
        first_resolution(rs, r, d),
        diff_parsed(rs[r + 5 as int]) == Result::<Seq<ChangedFileView>, Seq<char>>::Ok(files),
        text_spec("rev-parse"@, rs[r + 6 as int]) == Result::<Seq<char>, Seq<char>>::Ok(current_ref),
    ensures
        faithful(rs, r, final_stage(rs, r + 7, d, files, current_ref)),
{
    lemma_commands_distinct();
    if r + 7 < rs.len() {
        lemma_text_not_moved("rev-parse"@, rs[r + 7 as int]);
    }
}

proof fn lemma_recheck_faithful(rs: Seq<GitOutput>, r: nat, d: DeltaView, files: Seq<ChangedFileView>)
    requires
        d.issue is None,
        r + 6 <= rs.len(),
        first_resolution(rs, r, d),
        diff_parsed(rs[r + 5 as int]) == Result::<Seq<ChangedFileView>, Seq<char>>::Ok(files),
    ensures
        faithful(rs, r, recheck_stage(rs, r + 6, d, files)),
{
    lemma_commands_distinct();
    if r + 6 < rs.len() {
        lemma_text_not_moved("rev-parse"@, rs[r + 6 as int]);
        if let Ok(current_ref) = text_spec("rev-parse"@, rs[r + 6 as int]) {
            lemma_final_faithful(rs, r, d, files, current_ref);
        }
    }
}

proof fn lemma_diff_faithful(rs: Seq<GitOutput>, r: nat, d: DeltaView)
    requires
        d.issue is None,
        r + 5 <= rs.len(),
        first_resolution(rs, r, d),
    ensures
        faithful(rs, r, diff_stage(rs, r + 5, d)),
{
    lemma_commands_distinct();
    if r + 5 < rs.len() {
        lemma_diff_not_moved(rs[r + 5 as int]);
        if let Ok(files) = diff_parsed(rs[r + 5 as int]) {
            lemma_recheck_faithful(rs, r, d, files);
        }
    }
}

proof fn lemma_base_faithful(rs: Seq<GitOutput>, r: nat, d: DeltaView)
    requires
        d.issue is None,
        r + 4 <= rs.len(),
        text_spec("rev-parse"@, rs[r + 2 as int]) == Result::<Seq<char>, Seq<char>>::Ok(d.target_oid),
        text_spec("rev-parse"@, rs[r + 3 as int]) == Result::<Seq<char>, Seq<char>>::Ok(d.head_oid),
    ensures
        faithful(rs, r, base_stage(rs, r + 4, d)),
{
    lemma_commands_distinct();
    reveal_strlit("HEAD or the cached default-branch ref moved during inspection; refresh the overview");
    reveal_strlit("HEAD and the default branch have multiple merge bases");
    reveal_strlit("HEAD and the default branch have no common ancestor");
    reveal_strlit("git returned an invalid object ID");
    assert(moved_text()[5] == 'o');
    assert(multiple_bases_text()[5] == 'a');
    assert(no_common_ancestor_text()[5] == 'a');
    assert(invalid_object_id_text()[5] != 'o');
    if r + 4 < rs.len() {
        lemma_text_not_moved("merge-base"@, rs[r + 4 as int]);
        if let Ok(t) = text_spec("merge-base"@, rs[r + 4 as int]) {
            let bases = lines(t);
            if bases.len() == 1 && is_object_id(bases[0]) {
                assert(bases =~= seq![bases[0]]);
                lemma_diff_faithful(rs, r, DeltaView { base_oid: bases[0], ..d });
            }
        }
    }
}

proof fn lemma_head_faithful(rs: Seq<GitOutput>, r: nat, d: DeltaView)
    requires
        d.issue is None,
        r + 3 <= rs.len(),
        text_spec("rev-parse"@, rs[r + 2 as int]) == Result::<Seq<char>, Seq<char>>::Ok(d.target_oid),
    ensures
        faithful(rs, r, head_stage(rs, r + 3, d)),
{
    lemma_commands_distinct();
    reveal_strlit("HEAD or the cached default-branch ref moved during inspection; refresh the overview");
    reveal_strlit("git returned an invalid object ID");
    assert(moved_text()[0] != invalid_object_id_text()[0]);
    if r + 3 < rs.len() {
        lemma_text_not_moved("rev-parse"@, rs[r + 3 as int]);
        if let Ok(t) = text_spec("rev-parse"@, rs[r + 3 as int]) {
            if is_object_id(t) {
                lemma_base_faithful(rs, r, DeltaView { head_oid: t, ..d });
            }
        }
    }
}

proof fn lemma_target_faithful(rs: Seq<GitOutput>, r: nat, d: DeltaView)
    requires
        d.issue is None,
        r + 2 <= rs.len(),
    ensures
        faithful(rs, r, target_stage(rs, r + 2, d)),
{
    lemma_commands_distinct();
    reveal_strlit("HEAD or the cached default-branch ref moved during inspection; refresh the overview");
    reveal_strlit("git returned an invalid object ID");
    assert(moved_text()[0] != invalid_object_id_text()[0]);
    if r + 2 < rs.len() {
        lemma_text_not_moved("rev-parse"@, rs[r + 2 as int]);
        if let Ok(t) = text_spec("rev-parse"@, rs[r + 2 as int]) {
            if is_object_id(t) {
                lemma_head_faithful(rs, r, DeltaView { target_oid: t, ..d });
            }
        }
    }
}

proof fn lemma_check_faithful(branch: Seq<char>, rs: Seq<GitOutput>, r: nat, target_ref: Seq<char>)
    requires
        r + 1 <= rs.len(),
    ensures
        faithful(rs, r, check_stage(branch, rs, r + 1, target_ref)),
{
    lemma_commands_distinct();
    reveal_strlit("HEAD or the cached default-branch ref moved during inspection; refresh the overview");
    reveal_strlit("invalid default branch ");
    let e = "invalid default branch "@ + branch;
    assert(e[0] != moved_text()[0]);
    if r + 1 < rs.len() {
        lemma_target_faithful(rs, r, DeltaView { target_ref, ..empty_delta() });
    }
}

proof fn lemma_remote_faithful(
    url: Seq<char>,
    branch: Seq<char>,
    rs: Seq<GitOutput>,
    remotes: Seq<Seq<char>>,
    i: nat,
    matches: Seq<Seq<char>>,
)
    requires
        i <= remotes.len(),
        1 + i <= rs.len(),
    ensures
        faithful(rs, remotes.len(), remote_stage(url, branch, rs, remotes, i, matches)),
    decreases remotes.len() - i,
{
    lemma_commands_distinct();
    reveal_strlit("HEAD or the cached default-branch ref moved during inspection; refresh the overview");
    reveal_strlit("no local Git remote matches configured URL ");
    reveal_strlit("multiple Git remotes match configured URL ");
    let none = "no local Git remote matches configured URL "@ + url;
    let many = "multiple Git remotes match configured URL "@ + url;
    assert(none[0] != moved_text()[0]);
    assert(many[0] != moved_text()[0]);
    if i < remotes.len() {
        if 1 + i < rs.len() {
            lemma_text_not_moved("config"@, rs[1 + i as int]);
            if let Ok(u) = text_spec("config"@, rs[1 + i as int]) {
                lemma_remote_faithful(
                    url,
                    branch,
                    rs,
                    remotes,
                    i + 1,
                    if u == url {
                        matches.push(remotes[i as int])
                    } else {
                        matches
                    },
                );
            }
        }
    } else if matches.len() == 1 {
        lemma_check_faithful(branch, rs, remotes.len(), tracking_ref(matches[0], branch));
    }
}

proof fn lemma_inspect_faithful(url: Seq<char>, branch: Seq<char>, rs: Seq<GitOutput>)
    ensures
        faithful(rs, remote_count(rs), inspect_spec(url, branch, rs)),
{
    lemma_commands_distinct();
    reveal_strlit("HEAD or the cached default-branch ref moved during inspection; refresh the overview");
    reveal_strlit("default branch or remote URL is missing or invalid");
    assert(invalid_target_text()[0] != moved_text()[0]);
    if !(url.len() == 0 || branch.len() == 0 || branch[0] == '-') && rs.len() > 0 {
        lemma_text_not_moved("remote"@, rs[0]);
        if let Ok(t) = text_spec("remote"@, rs[0]) {
            lemma_remote_faithful(url, branch, rs, lines(t), 0, seq![]);
        }
    }
}

/// Whenever an inspection asks for the diff, it does so after exactly the number of
/// remotes plus five replies, and its two revisions are the single merge-base that
/// `git merge-base --all` reported and the commit HEAD resolved to, in that order.
pub proof fn law_diff_against_merge_base(
    url: Seq<char>,
    branch: Seq<char>,
    rs: Seq<GitOutput>,
    a: Seq<Seq<char>>,
)
    requires
        inspect_spec(url, branch, rs) == Step::Ask(a),
        a.len() > 0,
        a[0] == "diff"@,
    ensures
        diff_from_base(rs, remote_count(rs), a),
{
    lemma_inspect_faithful(url, branch, rs);
}

/// The merge-bases an inspection asks for are those of the commits that HEAD and the
/// target resolved to, HEAD first; and both times it resolves HEAD, it asks for the commit
/// that HEAD names.
pub proof fn law_asks_about_resolved_commits(
    url: Seq<char>,
    branch: Seq<char>,
    rs: Seq<GitOutput>,
    a: Seq<Seq<char>>,
)
    requires
        inspect_spec(url, branch, rs) == Step::Ask(a),
    ensures
        a.len() > 0 && a[0] == "merge-base"@ ==> merge_base_of_resolved(rs, remote_count(rs), a),
        rs.len() == remote_count(rs) + 3 || rs.len() == remote_count(rs) + 7 ==> a == seq![
            "rev-parse"@,
            "--verify"@,
            "HEAD^{commit}"@,
        ],
{
    lemma_inspect_faithful(url, branch, rs);
}

/// An inspection that finishes without an issue has resolved the target and HEAD twice to
/// the same commits, which the delta holds with the single merge-base and the parsed diff.
pub proof fn law_clean_finish_unmoved(url: Seq<char>, branch: Seq<char>, rs: Seq<GitOutput>, d: DeltaView)
    requires
        inspect_spec(url, branch, rs) == Step::Finish(d),
        d.issue is None,
    ensures
        finished_clean(rs, remote_count(rs), d),
{
    lemma_inspect_faithful(url, branch, rs);
}

/// An inspection reports that HEAD or the target moved only after the diff parsed and
/// both were resolved again, and only when one of them resolved to another commit than the
/// first time: when both resolve again to the same commits, whatever the merge-base, no
/// move is reported.
pub proof fn law_moved_only_when_moved(url: Seq<char>, branch: Seq<char>, rs: Seq<GitOutput>, d: DeltaView)
    requires
        inspect_spec(url, branch, rs) == Step::Finish(d),
        d.issue == Some(moved_text()),
    ensures
        finished_moved(rs, remote_count(rs), d),
{
    lemma_inspect_faithful(url, branch, rs);
}

} // verus!
