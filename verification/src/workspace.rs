//! The folders explicitly selected by a VS Code workspace, and what identifies them.
//! Task registrations establish identity; the repository registry supplies targets.
//! Reading files and directories is left to the caller, which hands over what it read.
use vstd::prelude::*;

use crate::paths::{
    components, components_of, comps_view, Component,
    join, join_spec, same_path, same_path_exec, task_slug, task_slug_spec,
};
use crate::strs::{seq_lt, str_lt, lemma_seq_lt_order, opt_string_view, blank, is_blank, cat, cat3, decimal, decimal_string, str_eq};

verus! {

/// The remote and default branch that a repository is compared against.
#[derive(Clone, Debug)]
pub struct Target {
    pub remote_url: String,
    pub branch: String,
}

pub struct TargetView {
    pub remote_url: Seq<char>,
    pub branch: Seq<char>,
}

impl View for Target {
    type V = TargetView;

    open spec fn view(&self) -> TargetView {
        TargetView { remote_url: self.remote_url@, branch: self.branch@ }
    }
}

/// A folder that the workspace selects.
#[derive(Clone, Debug)]
pub struct Folder {
    pub label: String,
    pub path: String,
    pub task: Option<String>,
    pub repo_id: Option<String>,
    pub target: Option<Target>,
    pub error: Option<String>,
}

pub struct FolderView {
    pub label: Seq<char>,
    pub path: Seq<char>,
    pub task: Option<Seq<char>>,
    pub repo_id: Option<Seq<char>>,
    pub target: Option<TargetView>,
    pub error: Option<Seq<char>>,
}

pub open spec fn opt_target_view(t: Option<Target>) -> Option<TargetView> {
    match t {
        Some(t) => Some(t@),
        None => None,
    }
}

impl View for Folder {
    type V = FolderView;

    open spec fn view(&self) -> FolderView {
        FolderView {
            label: self.label@,
            path: self.path@,
            task: opt_string_view(self.task),
            repo_id: opt_string_view(self.repo_id),
            target: opt_target_view(self.target),
            error: opt_string_view(self.error),
        }
    }
}

pub open spec fn folders_view(v: Seq<Folder>) -> Seq<FolderView> {
    v.map_values(|f: Folder| f@)
}

/// A workspace file and the folders it selects.
#[derive(Clone, Debug)]
pub struct Workspace {
    pub file: String,
    pub control_root: String,
    pub folders: Vec<Folder>,
    /// Number of repos declared by each selected task, including repos not in the workspace
    /// file; one entry per task, ordered by task name as a `BTreeMap` keeps them.
    pub declared: Vec<(String, usize)>,
}

/// An error added to those a folder already has, after `"; "`.
pub open spec fn with_error(existing: Option<Seq<char>>, error: Seq<char>) -> Option<Seq<char>> {
    match existing {
        Some(e) => Some(e + "; "@ + error),
        None => Some(error),
    }
}

pub open spec fn add_error_spec(f: FolderView, error: Seq<char>) -> FolderView {
    FolderView { error: Some(with_error(f.error, error).unwrap()), ..f }
}

/// Adds `error` to the folder's errors.
pub fn add_error(folder: &mut Folder, error: String)
    ensures
        final(folder)@ == add_error_spec(old(folder)@, error@),
{
    let updated = match &folder.error {
        Some(existing) => cat3(existing.as_str(), "; ", error.as_str()),
        None => error,
    };
    folder.error = Some(updated);
}

/// The index of the first pair whose key is `k`, or the length.
pub open spec fn key_index<V>(v: Seq<(String, V)>, k: Seq<char>) -> int
    decreases v.len(),
{
    if v.len() == 0 {
        0
    } else if v[0].0@ == k {
        0
    } else {
        1 + key_index(v.subrange(1, v.len() as int), k)
    }
}

proof fn lemma_key_index<V>(v: Seq<(String, V)>, k: Seq<char>, m: int)
    requires
        0 <= m <= v.len(),
        forall|j: int| 0 <= j < m ==> v[j].0@ != k,
        m == v.len() || v[m].0@ == k,
    ensures
        key_index(v, k) == m,
    decreases v.len(),
{
    if v.len() > 0 && m > 0 {
        let t = v.subrange(1, v.len() as int);
        assert forall|j: int| 0 <= j < m - 1 implies t[j].0@ != k by {
            assert(t[j] == v[j + 1]);
        }
        if m < v.len() {
            assert(t[m - 1] == v[m]);
        }
        lemma_key_index(t, k, m - 1);
    }
}

/// Finds the first pair whose key is `k`.
fn find_key<V>(v: &Vec<(String, V)>, k: &str) -> (r: usize)
    ensures
        r == key_index(v@, k@),
        r <= v@.len(),
        forall|j: int| 0 <= j < r ==> v@[j].0@ != k@,
        r < v@.len() ==> v@[r as int].0@ == k@,
{
    let mut i: usize = 0;
    while i < v.len()
        invariant
            i <= v@.len(),
            forall|j: int| 0 <= j < i ==> v@[j].0@ != k@,
        decreases v.len() - i,
    {
        if str_eq(v[i].0.as_str(), k) {
            proof {
                lemma_key_index(v@, k@, i as int);
            }
            return i;
        }
        i = i + 1;
    }
    proof {
        lemma_key_index(v@, k@, v@.len() as int);
    }
    i
}

/// A repository as `config/repositories.yaml` lists it.
pub struct RegistryEntry {
    pub id: String,
    pub remote: Option<String>,
    pub default_branch: Option<String>,
}

pub open spec fn is_filled(o: Option<String>) -> bool {
    o matches Some(s) && !is_blank(s@)
}

/// The target of one registry entry: its remote and default branch, both present and not
/// blank, else an error naming the repository.
pub open spec fn entry_target(e: RegistryEntry) -> Result<TargetView, Seq<char>> {
    if is_filled(e.remote) && is_filled(e.default_branch) {
        Ok(TargetView { remote_url: e.remote.unwrap()@, branch: e.default_branch.unwrap()@ })
    } else {
        Err(
            "repository "@ + e.id@ + " has no remote/default_branch in config/repositories.yaml"@,
        )
    }
}

/// One repository id and what the registry says of it.
pub open spec fn target_pair_view(p: (String, Result<Target, String>)) -> (
    Seq<char>,
    Result<TargetView, Seq<char>>,
) {
    (
        p.0@,
        match p.1 {
            Ok(t) => Ok(t@),
            Err(e) => Err(e@),
        },
    )
}

pub open spec fn targets_view(v: Seq<(String, Result<Target, String>)>) -> Seq<
    (Seq<char>, Result<TargetView, Seq<char>>),
> {
    v.map_values(|p: (String, Result<Target, String>)| target_pair_view(p))
}

/// The registry's repositories, one pair per id in the order first met; an id listed
/// twice is an error.
pub open spec fn registry_spec(entries: Seq<RegistryEntry>) -> Seq<(Seq<char>, Result<TargetView, Seq<char>>)>
    decreases entries.len(),
{
    if entries.len() == 0 {
        seq![]
    } else {
        let before = registry_spec(entries.drop_last());
        let e = entries.last();
        let j = seq_key_index(before, e.id@);
        if j < before.len() {
            before.update(
                j,
                (
                    e.id@,
                    Err(
                        "duplicate repository "@ + e.id@ + " in config/repositories.yaml"@,
                    ),
                ),
            )
        } else {
            before.push((e.id@, entry_target(e)))
        }
    }
}

/// The index of the first pair whose key is `k` in a sequence of viewed pairs.
pub open spec fn seq_key_index<V>(v: Seq<(Seq<char>, V)>, k: Seq<char>) -> int
    decreases v.len(),
{
    if v.len() == 0 {
        0
    } else if v[0].0 == k {
        0
    } else {
        1 + seq_key_index(v.subrange(1, v.len() as int), k)
    }
}

proof fn lemma_seq_key_index<V>(v: Seq<(Seq<char>, V)>, k: Seq<char>, m: int)
    requires
        0 <= m <= v.len(),
        forall|j: int| 0 <= j < m ==> v[j].0 != k,
        m == v.len() || v[m].0 == k,
    ensures
        seq_key_index(v, k) == m,
    decreases v.len(),
{
    if v.len() > 0 && m > 0 {
        let t = v.subrange(1, v.len() as int);
        assert forall|j: int| 0 <= j < m - 1 implies t[j].0 != k by {
            assert(t[j] == v[j + 1]);
        }
        if m < v.len() {
            assert(t[m - 1] == v[m]);
        }
        lemma_seq_key_index(t, k, m - 1);
    }
}

fn entry_target_exec(e: &RegistryEntry) -> (r: Result<Target, String>)
    ensures
        match r {
            Ok(t) => entry_target(*e) == Ok::<TargetView, Seq<char>>(t@),
            Err(m) => entry_target(*e) == Err::<TargetView, Seq<char>>(m@),
        },
{
    match (&e.remote, &e.default_branch) {
        (Some(remote), Some(branch)) => {
            if !blank(remote.as_str()) && !blank(branch.as_str()) {
                return Ok(
                    Target {
                        remote_url: String::from_str(remote.as_str()),
                        branch: String::from_str(branch.as_str()),
                    },
                );
            }
        },
        _ => {},
    }
    Err(cat3("repository ", e.id.as_str(), " has no remote/default_branch in config/repositories.yaml"))
}

/// What `config/repositories.yaml` says of each repository: its target, or why it has none.
pub fn registry_targets(entries: &Vec<RegistryEntry>) -> (r: Vec<(String, Result<Target, String>)>)
    ensures
        targets_view(r@) == registry_spec(entries@),
        distinct_keys(targets_view(r@)),
{
    proof {
        lemma_registry_distinct(entries@);
    }
    let mut out: Vec<(String, Result<Target, String>)> = Vec::new();
    let mut i: usize = 0;
    assert(targets_view(out@) =~= registry_spec(entries@.subrange(0, 0)));
    while i < entries.len()
        invariant
            i <= entries@.len(),
            targets_view(out@) == registry_spec(entries@.subrange(0, i as int)),
        decreases entries.len() - i,
    {
        let e = &entries[i];
        let ghost before = targets_view(out@);
        assert(entries@.subrange(0, i + 1).drop_last() =~= entries@.subrange(0, i as int));
        assert(entries@.subrange(0, i + 1).last() == entries@[i as int]);
        let j = find_key(&out, e.id.as_str());
        proof {
            assert forall|m: int| 0 <= m < j implies before[m].0 != e.id@ by {
                assert(before[m].0 == out@[m].0@);
            }
            if j < out@.len() {
                assert(before[j as int].0 == out@[j as int].0@);
            }
            lemma_seq_key_index(before, e.id@, j as int);
        }
        if j < out.len() {
            let msg = cat3("duplicate repository ", e.id.as_str(), " in config/repositories.yaml");
            out.set(j, (String::from_str(e.id.as_str()), Err(msg)));
            assert(targets_view(out@) =~= before.update(
                j as int,
                (e.id@, Err("duplicate repository "@ + e.id@ + " in config/repositories.yaml"@)),
            ));
        } else {
            let t = entry_target_exec(e);
            out.push((String::from_str(e.id.as_str()), t));
            assert(targets_view(out@) =~= before.push((e.id@, entry_target(*e))));
        }
        i = i + 1;
    }
    assert(entries@.subrange(0, entries@.len() as int) =~= entries@);
    out
}

/// A task's claim on a worktree path.
#[derive(Clone, Debug)]
pub struct Registration {
    pub task: String,
    pub repo: String,
    pub declared: usize,
}

pub struct RegistrationView {
    pub task: Seq<char>,
    pub repo: Seq<char>,
    pub declared: usize,
}

impl View for Registration {
    type V = RegistrationView;

    open spec fn view(&self) -> RegistrationView {
        RegistrationView { task: self.task@, repo: self.repo@, declared: self.declared }
    }
}

pub open spec fn registrations_view(v: Seq<Registration>) -> Seq<RegistrationView> {
    v.map_values(|r: Registration| r@)
}

/// The worktree registrations of all tasks: the claims on each path (paths compared as
/// `Path`s are), the tasks found invalid and why, and any trouble reading the tasks.
pub struct Registrations {
    pub by_path: Vec<(String, Vec<Registration>)>,
    pub invalid_tasks: Vec<(String, String)>,
    pub issue: Option<String>,
}

pub struct RegistrationsView {
    pub by_path: Seq<(Seq<char>, Seq<RegistrationView>)>,
    pub invalid_tasks: Seq<(Seq<char>, Seq<char>)>,
    pub issue: Option<Seq<char>>,
}

pub open spec fn by_path_view(v: Seq<(String, Vec<Registration>)>) -> Seq<(Seq<char>, Seq<RegistrationView>)> {
    v.map_values(|p: (String, Vec<Registration>)| (p.0@, registrations_view(p.1@)))
}

pub open spec fn string_pairs_view(v: Seq<(String, String)>) -> Seq<(Seq<char>, Seq<char>)> {
    v.map_values(|p: (String, String)| (p.0@, p.1@))
}

impl View for Registrations {
    type V = RegistrationsView;

    open spec fn view(&self) -> RegistrationsView {
        RegistrationsView {
            by_path: by_path_view(self.by_path@),
            invalid_tasks: string_pairs_view(self.invalid_tasks@),
            issue: opt_string_view(self.issue),
        }
    }
}

/// The index of the first pair whose path is the same path as `p`, or the length.
pub open spec fn path_index<V>(v: Seq<(Seq<char>, V)>, p: Seq<char>) -> int
    decreases v.len(),
{
    if v.len() == 0 {
        0
    } else if same_path(v[0].0, p) {
        0
    } else {
        1 + path_index(v.subrange(1, v.len() as int), p)
    }
}

proof fn lemma_path_index<V>(v: Seq<(Seq<char>, V)>, p: Seq<char>, m: int)
    requires
        0 <= m <= v.len(),
        forall|j: int| 0 <= j < m ==> !same_path(v[j].0, p),
        m == v.len() || same_path(v[m].0, p),
    ensures
        path_index(v, p) == m,
    decreases v.len(),
{
    if v.len() > 0 && m > 0 {
        let t = v.subrange(1, v.len() as int);
        assert forall|j: int| 0 <= j < m - 1 implies !same_path(t[j].0, p) by {
            assert(t[j] == v[j + 1]);
        }
        if m < v.len() {
            assert(t[m - 1] == v[m]);
        }
        lemma_path_index(t, p, m - 1);
    }
}

/// `map.insert(k, v)` on pairs: the value of an existing key is replaced, else the pair is
/// appended.
pub open spec fn insert_pair<V>(m: Seq<(Seq<char>, V)>, k: Seq<char>, v: V) -> Seq<(Seq<char>, V)> {
    let j = seq_key_index(m, k);
    if j < m.len() {
        m.update(j, (k, v))
    } else {
        m.push((k, v))
    }
}

/// `map.get(k)` on pairs.
pub open spec fn lookup_pair<V>(m: Seq<(Seq<char>, V)>, k: Seq<char>) -> Option<V> {
    let j = seq_key_index(m, k);
    if j < m.len() {
        Some(m[j].1)
    } else {
        None
    }
}

/// `by_path.entry(path).or_default().push(reg)`.
pub open spec fn register_spec(r: RegistrationsView, path: Seq<char>, reg: RegistrationView) -> RegistrationsView {
    let j = path_index(r.by_path, path);
    RegistrationsView {
        by_path: if j < r.by_path.len() {
            r.by_path.update(j, (r.by_path[j].0, r.by_path[j].1.push(reg)))
        } else {
            r.by_path.push((path, seq![reg]))
        },
        ..r
    }
}

/// `invalid_tasks.insert(slug, error)`.
pub open spec fn mark_invalid_spec(r: RegistrationsView, slug: Seq<char>, error: Seq<char>) -> RegistrationsView {
    RegistrationsView { invalid_tasks: insert_pair(r.invalid_tasks, slug, error), ..r }
}

fn find_path<V>(v: &Vec<(String, V)>, p: &str) -> (r: usize)
    ensures
        r <= v@.len(),
        forall|j: int| 0 <= j < r ==> !same_path(v@[j].0@, p@),
        r < v@.len() ==> same_path(v@[r as int].0@, p@),
{
    let mut i: usize = 0;
    while i < v.len()
        invariant
            i <= v@.len(),
            forall|j: int| 0 <= j < i ==> !same_path(v@[j].0@, p@),
        decreases v.len() - i,
    {
        if same_path_exec(v[i].0.as_str(), p) {
            return i;
        }
        i = i + 1;
    }
    i
}

impl Registrations {
    /// No registrations, no invalid tasks, no issue.
    pub fn new() -> (r: Registrations)
        ensures
            r@ == (RegistrationsView { by_path: seq![], invalid_tasks: seq![], issue: None }),
            registrations_wf(r@),
    {
        let r = Registrations { by_path: Vec::new(), invalid_tasks: Vec::new(), issue: None };
        assert(by_path_view(r.by_path@) =~= seq![]);
        assert(string_pairs_view(r.invalid_tasks@) =~= seq![]);
        r
    }

    /// Records that `reg` claims `path`.
    pub fn register(&mut self, path: String, reg: Registration)
        ensures
            final(self)@ == register_spec(old(self)@, path@, reg@),
            registrations_wf(old(self)@) ==> registrations_wf(final(self)@),
    {
        let ghost before = self@;
        proof {
            if registrations_wf(before) {
                lemma_register_wf(before, path@, reg@);
            }
        }
        let j = find_path(&self.by_path, path.as_str());
        proof {
            assert forall|m: int| 0 <= m < j implies !same_path(before.by_path[m].0, path@) by {
                assert(before.by_path[m].0 == self.by_path@[m].0@);
            }
            if j < self.by_path@.len() {
                assert(before.by_path[j as int].0 == self.by_path@[j as int].0@);
            }
            lemma_path_index(before.by_path, path@, j as int);
        }
        if j < self.by_path.len() {
            let (key, mut list) = self.by_path.remove(j);
            let ghost old_list = registrations_view(list@);
            assert(key@ == before.by_path[j as int].0);
            assert(old_list == before.by_path[j as int].1);
            list.push(reg);
            assert(registrations_view(list@) =~= old_list.push(reg@));
            self.by_path.insert(j, (key, list));
            assert(by_path_view(self.by_path@) =~= before.by_path.update(
                j as int,
                (before.by_path[j as int].0, before.by_path[j as int].1.push(reg@)),
            ));
        } else {
            let ghost r = reg@;
            let list = vec![reg];
            assert(registrations_view(list@) =~= seq![r]);
            self.by_path.push((path, list));
            assert(by_path_view(self.by_path@) =~= before.by_path.push((path@, seq![r])));
        }
    }

    /// Records that the task `slug` is invalid, and why.
    pub fn mark_invalid(&mut self, slug: String, error: String)
        ensures
            final(self)@ == mark_invalid_spec(old(self)@, slug@, error@),
            registrations_wf(old(self)@) ==> registrations_wf(final(self)@),
    {
        let ghost before = self@;
        proof {
            if registrations_wf(before) {
                lemma_mark_invalid_wf(before, slug@, error@);
            }
        }
        let j = find_key(&self.invalid_tasks, slug.as_str());
        proof {
            assert forall|m: int| 0 <= m < j implies before.invalid_tasks[m].0 != slug@ by {
                assert(before.invalid_tasks[m].0 == self.invalid_tasks@[m].0@);
            }
            if j < self.invalid_tasks@.len() {
                assert(before.invalid_tasks[j as int].0 == self.invalid_tasks@[j as int].0@);
            }
            lemma_seq_key_index(before.invalid_tasks, slug@, j as int);
        }
        if j < self.invalid_tasks.len() {
            self.invalid_tasks.set(j, (slug, error));
            assert(string_pairs_view(self.invalid_tasks@) =~= before.invalid_tasks.update(
                j as int,
                (slug@, error@),
            ));
        } else {
            self.invalid_tasks.push((slug, error));
            assert(string_pairs_view(self.invalid_tasks@) =~= before.invalid_tasks.push(
                (slug@, error@),
            ));
        }
    }
}

/// The workspace registration of a task's `task.json`: the repositories it declares and
/// the worktree path of each, a map held as pairs sorted by repository.
pub struct TaskWorkspace {
    pub repos: Vec<String>,
    pub worktrees: Vec<(String, String)>,
}

/// What a task's `task.json` holds.
pub struct TaskFile {
    pub id: String,
    pub workspace: Option<TaskWorkspace>,
}

/// Whether `repos` holds `repo`.
pub open spec fn declares(repos: Seq<String>, repo: Seq<char>) -> bool {
    exists|k: int| 0 <= k < repos.len() && repos[k]@ == repo
}

/// The worktrees are a map as `BTreeMap` iterates it: repositories in increasing order,
/// each once.
pub open spec fn worktrees_sorted(task: TaskFile) -> bool {
    task.workspace matches Some(w) ==> sorted_keys(string_pairs_view(w.worktrees@))
}

pub open spec fn worktree_count(task: TaskFile) -> nat {
    match task.workspace {
        Some(w) => w.worktrees@.len(),
        None => 0,
    }
}

/// Where each worktree of the task lies: its registered path, relative ones taken from
/// `root`.
pub open spec fn worktree_paths_spec(root: Seq<char>, task: TaskFile) -> Seq<Seq<char>> {
    match task.workspace {
        Some(w) => Seq::new(w.worktrees@.len(), |i: int| join_spec(root, w.worktrees@[i].1@)),
        None => seq![],
    }
}

/// The paths of the task's worktrees, each joined to `root` unless absolute; the caller
/// normalizes them before `record_task`.
pub fn worktree_paths(root: &str, task: &TaskFile) -> (r: Vec<String>)
    ensures
        crate::strs::views(r@) == worktree_paths_spec(root@, *task),
{
    let mut out: Vec<String> = Vec::new();
    match &task.workspace {
        None => {
            assert(crate::strs::views(out@) =~= seq![]);
        },
        Some(w) => {
            let mut i: usize = 0;
            while i < w.worktrees.len()
                invariant
                    i <= w.worktrees@.len(),
                    crate::strs::views(out@) =~= Seq::new(
                        i as nat,
                        |k: int| join_spec(root@, w.worktrees@[k].1@),
                    ),
                decreases w.worktrees.len() - i,
            {
                let ghost before = crate::strs::views(out@);
                out.push(join(root, w.worktrees[i].1.as_str()));
                assert(crate::strs::views(out@) =~= before.push(join_spec(root@, w.worktrees@[i as int].1@)));
                i = i + 1;
            }
        },
    }
    out
}

/// The registrations as reading one task leaves them: a task whose id is not its directory
/// name, or that has no workspace registration, is invalid; each worktree of a declared
/// repository is registered under its normalized path, and each of an undeclared one makes
/// the task invalid.
pub open spec fn record_task_spec(
    r: RegistrationsView,
    slug: Seq<char>,
    task: TaskFile,
    normalized: Seq<Seq<char>>,
) -> RegistrationsView {
    if task.id@ != slug {
        mark_invalid_spec(r, slug, "task id "@ + task.id@ + " does not match "@ + slug)
    } else {
        match task.workspace {
            None => mark_invalid_spec(r, slug, "task "@ + slug + " has no workspace registration"@),
            Some(w) => worktrees_fold(r, slug, w, normalized, w.worktrees@.len()),
        }
    }
}

/// The first `n` worktrees of a task, recorded in order.
pub open spec fn worktrees_fold(
    r: RegistrationsView,
    slug: Seq<char>,
    w: TaskWorkspace,
    normalized: Seq<Seq<char>>,
    n: nat,
) -> RegistrationsView
    decreases n,
{
    if n == 0 {
        r
    } else {
        let prev = worktrees_fold(r, slug, w, normalized, (n - 1) as nat);
        let repo = w.worktrees@[n - 1].0@;
        if declares(w.repos@, repo) {
            register_spec(
                prev,
                normalized[n - 1],
                RegistrationView { task: slug, repo, declared: w.repos@.len() as usize },
            )
        } else {
            mark_invalid_spec(prev, slug, "task "@ + slug + " registers undeclared repository "@ + repo)
        }
    }
}

fn declares_exec(repos: &Vec<String>, repo: &str) -> (r: bool)
    ensures
        r == declares(repos@, repo@),
{
    let mut i: usize = 0;
    while i < repos.len()
        invariant
            i <= repos@.len(),
            forall|k: int| 0 <= k < i ==> repos@[k]@ != repo@,
        decreases repos.len() - i,
    {
        if str_eq(repos[i].as_str(), repo) {
            return true;
        }
        i = i + 1;
    }
    false
}

impl Registrations {
    /// Records what the task in the directory `slug` registers; `normalized` holds the
    /// normalized `worktree_paths` of the task.
    pub fn record_task(&mut self, slug: &str, task: &TaskFile, normalized: &Vec<String>)
        requires
            worktrees_sorted(*task),
            normalized@.len() == worktree_count(*task),
        ensures
            final(self)@ == record_task_spec(
                old(self)@,
                slug@,
                *task,
                crate::strs::views(normalized@),
            ),
            registrations_wf(old(self)@) ==> registrations_wf(final(self)@),
    {
        proof {
            if registrations_wf(self@) {
                lemma_record_task_wf(self@, slug@, *task, crate::strs::views(normalized@));
            }
        }
        if !str_eq(task.id.as_str(), slug) {
            let mut m = cat3("task id ", task.id.as_str(), " does not match ");
            m.append(slug);
            self.mark_invalid(String::from_str(slug), m);
            return;
        }
        match &task.workspace {
            None => {
                self.mark_invalid(
                    String::from_str(slug),
                    cat3("task ", slug, " has no workspace registration"),
                );
            },
            Some(w) => {
                let ghost start = self@;
                let ghost nv = crate::strs::views(normalized@);
                let mut i: usize = 0;
                while i < w.worktrees.len()
                    invariant
                        i <= w.worktrees@.len(),
                        normalized@.len() == w.worktrees@.len(),
                        nv == crate::strs::views(normalized@),
                        self@ == worktrees_fold(start, slug@, *w, nv, i as nat),
                    decreases w.worktrees.len() - i,
                {
                    let repo = &w.worktrees[i].0;
                    if declares_exec(&w.repos, repo.as_str()) {
                        let reg = Registration {
                            task: String::from_str(slug),
                            repo: String::from_str(repo.as_str()),
                            declared: w.repos.len(),
                        };
                        self.register(String::from_str(normalized[i].as_str()), reg);
                    } else {
                        let mut m = cat3("task ", slug, " registers undeclared repository ");
                        m.append(repo.as_str());
                        self.mark_invalid(String::from_str(slug), m);
                    }
                    i = i + 1;
                }
            },
        }
    }
}

/// A folder entry of the workspace file.
pub struct FolderEntry {
    pub name: Option<String>,
    pub path: Option<String>,
    pub uri: Option<String>,
}

/// Where a selected folder lies once resolved: its normalized path, and whether a
/// directory is there.
pub struct Resolved {
    pub path: String,
    pub is_dir: bool,
}

/// Whether an entry selects a local path, which the caller resolves.
pub open spec fn needs_resolution(e: FolderEntry) -> bool {
    e.path matches Some(p) && p@.len() > 0
}

/// The path that an entry selects, relative paths taken from the workspace's directory.
pub fn selected_path(control_root: &str, entry: &FolderEntry) -> (r: Option<String>)
    ensures
        opt_string_view(r) == (if needs_resolution(*entry) {
            Some(join_spec(control_root@, entry.path.unwrap()@))
        } else {
            None
        }),
{
    match &entry.path {
        Some(p) => if p.unicode_len() > 0 {
            Some(join(control_root, p.as_str()))
        } else {
            None
        },
        None => None,
    }
}

/// The folders found so far, the paths already selected, and the repos declared per task.
pub struct Assembly {
    pub folders: Seq<FolderView>,
    pub seen: Seq<Seq<char>>,
    pub declared: Seq<(Seq<char>, usize)>,
}

pub open spec fn registry_view(r: Result<Vec<(String, Result<Target, String>)>, String>) -> Result<
    Seq<(Seq<char>, Result<TargetView, Seq<char>>)>,
    Seq<char>,
> {
    match r {
        Ok(v) => Ok(targets_view(v@)),
        Err(e) => Err(e@),
    }
}

/// A folder's label: its name unless empty, else its path.
pub open spec fn entry_label(e: FolderEntry) -> Seq<char> {
    let fallback = match e.path {
        Some(p) => p@,
        None => "<no path>"@,
    };
    match e.name {
        Some(n) => if n@.len() > 0 {
            n@
        } else {
            fallback
        },
        None => fallback,
    }
}

pub open spec fn bare_folder(label: Seq<char>, path: Seq<char>) -> FolderView {
    FolderView { label, path, task: None, repo_id: None, target: None, error: None }
}

/// Whether a path the same as `p` was selected already.
pub open spec fn seen_has(seen: Seq<Seq<char>>, p: Seq<char>) -> bool {
    exists|k: int| 0 <= k < seen.len() && same_path(seen[k], p)
}

/// A folder that exactly one task registers: its task and repository, and the target
/// that the registry gives the repository, or why it gives none.
pub open spec fn registered_folder(
    f0: FolderView,
    reg: RegistrationView,
    registry: Result<Seq<(Seq<char>, Result<TargetView, Seq<char>>)>, Seq<char>>,
) -> FolderView {
    let f1 = FolderView { task: Some(reg.task), repo_id: Some(reg.repo), ..f0 };
    match registry {
        Ok(entries) => match lookup_pair(entries, reg.repo) {
            Some(Ok(t)) => FolderView { target: Some(t), ..f1 },
            Some(Err(err)) => add_error_spec(f1, err),
            None => add_error_spec(
                f1,
                "repository "@ + reg.repo + " is absent from config/repositories.yaml"@,
            ),
        },
        Err(err) => add_error_spec(f1, err),
    }
}

/// Why a folder that no task registers has no identity: the invalid task that its place
/// under `worktrees/` hints at, else the trouble reading the tasks, else that nothing
/// registers it.
pub open spec fn unregistered_error(regs: RegistrationsView, root: Seq<char>, p: Seq<char>) -> Seq<char> {
    let hint = match task_slug_spec(p, root) {
        Some(slug) => lookup_pair(regs.invalid_tasks, slug),
        None => None,
    };
    match hint {
        Some(h) => h,
        None => match regs.issue {
            Some(x) => x,
            None => "selected folder has no exact task.json worktree registration"@,
        },
    }
}

/// One folder entry (the `index`-th) added to what was assembled: entries without a local
/// path get an error; a path selected before is skipped; the workspace's own directory
/// has no task; any other folder takes its identity from its single registration.
pub open spec fn asm_step(
    root: Seq<char>,
    regs: RegistrationsView,
    registry: Result<Seq<(Seq<char>, Result<TargetView, Seq<char>>)>, Seq<char>>,
    st: Assembly,
    index: nat,
    e: FolderEntry,
    res: Option<Resolved>,
) -> Assembly {
    let base = bare_folder(entry_label(e), root);
    match e.path {
        None => Assembly {
            folders: st.folders.push(
                FolderView {
                    error: Some(
                        if e.uri is Some {
                            "workspace URI folders are not local paths"@
                        } else {
                            "folder "@ + decimal(index + 1) + " has no path"@
                        },
                    ),
                    ..base
                },
            ),
            ..st
        },
        Some(rel) => if rel@.len() == 0 {
            Assembly {
                folders: st.folders.push(
                    FolderView { error: Some("workspace folder path is empty"@), ..base },
                ),
                ..st
            }
        } else {
            let r = res.unwrap();
            let p = r.path@;
            if seen_has(st.seen, p) {
                st
            } else {
                let f0 = FolderView {
                    path: p,
                    error: if r.is_dir {
                        None
                    } else {
                        Some(
                            "selected folder is missing or not a directory: "@ + join_spec(
                                root,
                                rel@,
                            ),
                        )
                    },
                    ..base
                };
                let seen = st.seen.push(p);
                if same_path(p, root) {
                    Assembly { folders: st.folders.push(f0), seen, declared: st.declared }
                } else {
                    let j = path_index(regs.by_path, p);
                    if j < regs.by_path.len() {
                        let ms = regs.by_path[j].1;
                        if ms.len() == 1 {
                            Assembly {
                                folders: st.folders.push(registered_folder(f0, ms[0], registry)),
                                seen,
                                declared: insert_sorted(st.declared, ms[0].task, ms[0].declared),
                            }
                        } else {
                            Assembly {
                                folders: st.folders.push(
                                    add_error_spec(
                                        f0,
                                        "selected folder is registered by multiple tasks"@,
                                    ),
                                ),
                                seen,
                                declared: st.declared,
                            }
                        }
                    } else {
                        Assembly {
                            folders: st.folders.push(
                                add_error_spec(f0, unregistered_error(regs, root, p)),
                            ),
                            seen,
                            declared: st.declared,
                        }
                    }
                }
            }
        },
    }
}

/// The first `n` folder entries, assembled in order.
pub open spec fn asm_fold(
    root: Seq<char>,
    regs: RegistrationsView,
    registry: Result<Seq<(Seq<char>, Result<TargetView, Seq<char>>)>, Seq<char>>,
    entries: Seq<FolderEntry>,
    resolved: Seq<Option<Resolved>>,
    n: nat,
) -> Assembly
    decreases n,
{
    if n == 0 {
        Assembly { folders: seq![], seen: seq![], declared: seq![] }
    } else {
        asm_step(
            root,
            regs,
            registry,
            asm_fold(root, regs, registry, entries, resolved, (n - 1) as nat),
            (n - 1) as nat,
            entries[n - 1],
            resolved[n - 1],
        )
    }
}

pub open spec fn declared_view(v: Seq<(String, usize)>) -> Seq<(Seq<char>, usize)> {
    v.map_values(|p: (String, usize)| (p.0@, p.1))
}

fn entry_label_exec(e: &FolderEntry) -> (r: String)
    ensures
        r@ == entry_label(*e),
{
    match &e.name {
        Some(n) => if n.unicode_len() > 0 {
            return String::from_str(n.as_str());
        },
        None => {},
    }
    match &e.path {
        Some(p) => String::from_str(p.as_str()),
        None => String::from_str("<no path>"),
    }
}

fn lookup_target(entries: &Vec<(String, Result<Target, String>)>, repo: &str) -> (r: Option<Result<Target, String>>)
    ensures
        match r {
            None => lookup_pair(targets_view(entries@), repo@) is None,
            Some(Ok(t)) => lookup_pair(targets_view(entries@), repo@) == Some(
                Ok::<TargetView, Seq<char>>(t@),
            ),
            Some(Err(e)) => lookup_pair(targets_view(entries@), repo@) == Some(
                Err::<TargetView, Seq<char>>(e@),
            ),
        },
{
    let ghost tv = targets_view(entries@);
    let j = find_key(entries, repo);
    proof {
        assert forall|m: int| 0 <= m < j implies tv[m].0 != repo@ by {
            assert(tv[m].0 == entries@[m].0@);
        }
        if j < entries@.len() {
            assert(tv[j as int].0 == entries@[j as int].0@);
        }
        lemma_seq_key_index(tv, repo@, j as int);
    }
    if j < entries.len() {
        match &entries[j].1 {
            Ok(t) => Some(
                Ok(
                    Target {
                        remote_url: String::from_str(t.remote_url.as_str()),
                        branch: String::from_str(t.branch.as_str()),
                    },
                ),
            ),
            Err(e) => Some(Err(String::from_str(e.as_str()))),
        }
    } else {
        None
    }
}

fn registered_folder_exec(
    f0: Folder,
    reg: &Registration,
    registry: &Result<Vec<(String, Result<Target, String>)>, String>,
) -> (r: Folder)
    ensures
        r@ == registered_folder(f0@, reg@, registry_view(*registry)),
{
    let mut f = f0;
    f.task = Some(String::from_str(reg.task.as_str()));
    f.repo_id = Some(String::from_str(reg.repo.as_str()));
    match registry {
        Ok(entries) => match lookup_target(entries, reg.repo.as_str()) {
            Some(Ok(t)) => {
                f.target = Some(t);
            },
            Some(Err(e)) => {
                add_error(&mut f, e);
            },
            None => {
                add_error(
                    &mut f,
                    cat3(
                        "repository ",
                        reg.repo.as_str(),
                        " is absent from config/repositories.yaml",
                    ),
                );
            },
        },
        Err(e) => {
            add_error(&mut f, String::from_str(e.as_str()));
        },
    }
    f
}

fn unregistered_error_exec(regs: &Registrations, root: &str, p: &str) -> (r: String)
    ensures
        r@ == unregistered_error(regs@, root@, p@),
{
    let ghost iv = regs@.invalid_tasks;
    match task_slug(p, root) {
        Some(slug) => {
            let j = find_key(&regs.invalid_tasks, slug.as_str());
            proof {
                assert forall|m: int| 0 <= m < j implies iv[m].0 != slug@ by {
                    assert(iv[m].0 == regs.invalid_tasks@[m].0@);
                }
                if j < regs.invalid_tasks@.len() {
                    assert(iv[j as int].0 == regs.invalid_tasks@[j as int].0@);
                }
                lemma_seq_key_index(iv, slug@, j as int);
            }
            if j < regs.invalid_tasks.len() {
                return String::from_str(regs.invalid_tasks[j].1.as_str());
            }
        },
        None => {},
    }
    match &regs.issue {
        Some(x) => String::from_str(x.as_str()),
        None => String::from_str("selected folder has no exact task.json worktree registration"),
    }
}

fn seen_has_exec(seen: &Vec<String>, p: &str) -> (r: bool)
    ensures
        r == seen_has(crate::strs::views(seen@), p@),
{
    let ghost sv = crate::strs::views(seen@);
    let mut i: usize = 0;
    while i < seen.len()
        invariant
            sv == crate::strs::views(seen@),
            i <= seen@.len(),
            forall|k: int| 0 <= k < i ==> !same_path(sv[k], p@),
        decreases seen.len() - i,
    {
        if same_path_exec(seen[i].as_str(), p) {
            assert(sv[i as int] == seen@[i as int]@);
            return true;
        }
        assert(sv[i as int] == seen@[i as int]@);
        i = i + 1;
    }
    false
}

fn insert_declared(declared: &mut Vec<(String, usize)>, task: &str, n: usize)
    ensures
        declared_view(final(declared)@) == insert_sorted(declared_view(old(declared)@), task@, n),
{
    let ghost before = declared_view(declared@);
    let mut p: usize = 0;
    while p < declared.len() && str_lt(declared[p].0.as_str(), task)
        invariant
            before == declared_view(declared@),
            p <= declared@.len(),
            forall|i: int| 0 <= i < p ==> seq_lt(#[trigger] before[i].0, task@),
        decreases declared.len() - p,
    {
        assert(before[p as int].0 == declared@[p as int].0@);
        p = p + 1;
    }
    proof {
        if p < declared@.len() {
            assert(before[p as int].0 == declared@[p as int].0@);
        }
        lemma_lower_bound(before, task@, p as int);
    }
    if p < declared.len() && str_eq(declared[p].0.as_str(), task) {
        assert(before[p as int].0 == declared@[p as int].0@);
        declared.set(p, (String::from_str(task), n));
        assert(declared_view(declared@) =~= before.update(p as int, (task@, n)));
    } else {
        proof {
            if p < declared@.len() {
                assert(before[p as int].0 == declared@[p as int].0@);
            }
        }
        declared.insert(p, (String::from_str(task), n));
        assert(declared_view(declared@) =~= before.insert(p as int, (task@, n)));
    }
}

impl Workspace {
    /// The workspace that `file` in `control_root` describes: its folder `entries` in
    /// order, each local one resolved by the caller (`resolved[i]` for `entries[i]`), with
    /// identities from `regs` and targets from `registry`.
    pub fn assemble(
        file: String,
        control_root: String,
        entries: &Vec<FolderEntry>,
        resolved: &Vec<Option<Resolved>>,
        regs: &Registrations,
        registry: &Result<Vec<(String, Result<Target, String>)>, String>,
    ) -> (w: Workspace)
        requires
            resolved@.len() == entries@.len(),
            forall|i: int|
                0 <= i < entries@.len() && needs_resolution(#[trigger] entries@[i])
                    ==> resolved@[i] is Some,
        ensures
            w.file@ == file@,
            w.control_root@ == control_root@,
            folders_view(w.folders@) == asm_fold(
                control_root@,
                regs@,
                registry_view(*registry),
                entries@,
                resolved@,
                entries@.len(),
            ).folders,
            declared_view(w.declared@) == asm_fold(
                control_root@,
                regs@,
                registry_view(*registry),
                entries@,
                resolved@,
                entries@.len(),
            ).declared,
            sorted_keys(declared_view(w.declared@)),
            distinct_keys(declared_view(w.declared@)),
    {
        proof {
            lemma_asm_declared_sorted(
                control_root@,
                regs@,
                registry_view(*registry),
                entries@,
                resolved@,
                entries@.len(),
            );
        }
        let ghost rv = registry_view(*registry);
        let root = control_root.as_str();
        let mut folders: Vec<Folder> = Vec::new();
        let mut seen: Vec<String> = Vec::new();
        let mut declared: Vec<(String, usize)> = Vec::new();
        let mut i: usize = 0;
        assert(folders_view(folders@) =~= seq![]);
        assert(crate::strs::views(seen@) =~= seq![]);
        assert(declared_view(declared@) =~= seq![]);
        while i < entries.len()
            invariant
                i <= entries@.len(),
                resolved@.len() == entries@.len(),
                forall|k: int|
                    0 <= k < entries@.len() && needs_resolution(#[trigger] entries@[k])
                        ==> resolved@[k] is Some,
                rv == registry_view(*registry),
                root@ == control_root@,
                asm_fold(root@, regs@, rv, entries@, resolved@, i as nat) == (Assembly {
                    folders: folders_view(folders@),
                    seen: crate::strs::views(seen@),
                    declared: declared_view(declared@),
                }),
            decreases entries.len() - i,
        {
            let e = &entries[i];
            let ghost st = asm_fold(root@, regs@, rv, entries@, resolved@, i as nat);
            let ghost next = asm_step(root@, regs@, rv, st, i as nat, *e, resolved@[i as int]);
            assert(asm_fold(root@, regs@, rv, entries@, resolved@, (i + 1) as nat) == next);
            let label = entry_label_exec(e);
            match &e.path {
                None => {
                    let error = if e.uri.is_some() {
                        String::from_str("workspace URI folders are not local paths")
                    } else {
                        let mut m = cat("folder ", decimal_string(i + 1).as_str());
                        m.append(" has no path");
                        m
                    };
                    let f = Folder {
                        label,
                        path: String::from_str(root),
                        task: None,
                        repo_id: None,
                        target: None,
                        error: Some(error),
                    };
                    folders.push(f);
                    assert(folders_view(folders@) =~= next.folders);
                },
                Some(rel) => {
                    if rel.unicode_len() == 0 {
                        let f = Folder {
                            label,
                            path: String::from_str(root),
                            task: None,
                            repo_id: None,
                            target: None,
                            error: Some(String::from_str("workspace folder path is empty")),
                        };
                        folders.push(f);
                        assert(folders_view(folders@) =~= next.folders);
                    } else {
                        assert(needs_resolution(entries@[i as int]));
                        let r = resolved[i].as_ref().unwrap();
                        let p = r.path.as_str();
                        if !seen_has_exec(&seen, p) {
                            let error = if r.is_dir {
                                None
                            } else {
                                let selected = join(root, rel.as_str());
                                Some(cat("selected folder is missing or not a directory: ", selected.as_str()))
                            };
                            let f0 = Folder {
                                label,
                                path: String::from_str(p),
                                task: None,
                                repo_id: None,
                                target: None,
                                error,
                            };
                            let ghost sv = crate::strs::views(seen@);
                            seen.push(String::from_str(p));
                            assert(crate::strs::views(seen@) =~= sv.push(p@));
                            if same_path_exec(p, root) {
                                folders.push(f0);
                                assert(folders_view(folders@) =~= next.folders);
                            } else {
                                let ghost bp = regs@.by_path;
                                let j = find_path(&regs.by_path, p);
                                proof {
                                    assert forall|m: int| 0 <= m < j implies !same_path(bp[m].0, p@) by {
                                        assert(bp[m].0 == regs.by_path@[m].0@);
                                    }
                                    if j < regs.by_path@.len() {
                                        assert(bp[j as int].0 == regs.by_path@[j as int].0@);
                                    }
                                    lemma_path_index(bp, p@, j as int);
                                }
                                if j < regs.by_path.len() {
                                    let ms = &regs.by_path[j].1;
                                    assert(bp[j as int].1 == registrations_view(ms@));
                                    if ms.len() == 1 {
                                        let reg = &ms[0];
                                        let f = registered_folder_exec(f0, reg, registry);
                                        folders.push(f);
                                        assert(folders_view(folders@) =~= next.folders);
                                        insert_declared(&mut declared, reg.task.as_str(), reg.declared);
                                    } else {
                                        let mut f = f0;
                                        add_error(
                                            &mut f,
                                            String::from_str("selected folder is registered by multiple tasks"),
                                        );
                                        folders.push(f);
                                        assert(folders_view(folders@) =~= next.folders);
                                    }
                                } else {
                                    let mut f = f0;
                                    add_error(&mut f, unregistered_error_exec(regs, root, p));
                                    folders.push(f);
                                    assert(folders_view(folders@) =~= next.folders);
                                }
                            }
                        }
                    }
                },
            }
            i = i + 1;
        }
        Workspace { file, control_root, folders, declared }
    }
}

pub open spec fn workspace_suffix() -> Seq<char> {
    ".code-workspace"@
}

/// Whether a file name's extension (`Path::extension`) is `code-workspace`: it ends in
/// `.code-workspace` after a non-empty stem.
pub open spec fn has_workspace_extension(name: Seq<char>) -> bool {
    name.len() > workspace_suffix().len() && name.subrange(
        name.len() - workspace_suffix().len(),
        name.len() as int,
    ) == workspace_suffix()
}

/// `Path::file_name`: the last component, when it is a name.
pub open spec fn file_name_spec(p: Seq<char>) -> Option<Seq<char>> {
    let cs = components(p);
    if cs.len() > 0 && cs.last() is Normal {
        Some(cs.last()->Normal_0)
    } else {
        None
    }
}

/// A directory entry that may be the workspace file: a file with the workspace extension.
pub open spec fn is_candidate(e: (Seq<char>, bool)) -> bool {
    e.1 && has_workspace_extension(e.0)
}

pub open spec fn entries_view(v: Seq<(String, bool)>) -> Seq<(Seq<char>, bool)> {
    v.map_values(|p: (String, bool)| (p.0@, p.1))
}

/// How many entries are candidates.
pub open spec fn candidate_count(es: Seq<(Seq<char>, bool)>) -> nat
    decreases es.len(),
{
    if es.len() == 0 {
        0
    } else {
        candidate_count(es.drop_last()) + if is_candidate(es.last()) {
            1nat
        } else {
            0nat
        }
    }
}

/// The index of the first candidate named `name`, or the length.
pub open spec fn first_named(es: Seq<(Seq<char>, bool)>, name: Seq<char>) -> int
    decreases es.len(),
{
    if es.len() == 0 {
        0
    } else if is_candidate(es[0]) && es[0].0 == name {
        0
    } else {
        1 + first_named(es.subrange(1, es.len() as int), name)
    }
}

/// The index of the first candidate, or the length.
pub open spec fn first_candidate(es: Seq<(Seq<char>, bool)>) -> int
    decreases es.len(),
{
    if es.len() == 0 {
        0
    } else if is_candidate(es[0]) {
        0
    } else {
        1 + first_candidate(es.subrange(1, es.len() as int))
    }
}

pub open spec fn ambiguous_text(dir: Seq<char>) -> Seq<char> {
    "multiple .code-workspace files in "@ + dir + ": set HERDR_SIDEBAR_CODE_WORKSPACE"@
}

/// The workspace file among the entries (name, whether a file) of the directory `dir`:
/// none when no entry is a candidate; else the one named after the directory; else the
/// only candidate; several candidates without one so named are an error, never an
/// arbitrary choice.
pub open spec fn workspace_choice(dir: Seq<char>, es: Seq<(Seq<char>, bool)>) -> Result<Option<int>, Seq<char>> {
    if candidate_count(es) == 0 {
        Ok(None)
    } else {
        let preferred = match file_name_spec(dir) {
            Some(n) => first_named(es, n + workspace_suffix()),
            None => es.len() as int,
        };
        if preferred < es.len() {
            Ok(Some(preferred))
        } else if candidate_count(es) == 1 {
            Ok(Some(first_candidate(es)))
        } else {
            Err(ambiguous_text(dir))
        }
    }
}

fn has_workspace_extension_exec(name: &str) -> (r: bool)
    ensures
        r == has_workspace_extension(name@),
{
    let suffix = ".code-workspace";
    let n = name.unicode_len();
    let m = suffix.unicode_len();
    if n <= m {
        return false;
    }
    let tail = name.substring_char(n - m, n);
    crate::strs::str_eq(tail, suffix)
}

fn file_name_of(p: &str) -> (r: Option<String>)
    ensures
        opt_string_view(r) == file_name_spec(p@),
{
    let cs = components_of(p);
    if cs.len() == 0 {
        return None;
    }
    assert(comps_view(cs@).last() == cs@[cs@.len() - 1]@);
    match &cs[cs.len() - 1] {
        Component::Normal(n) => Some(String::from_str(n.as_str())),
        _ => None,
    }
}

proof fn lemma_first_named(es: Seq<(Seq<char>, bool)>, name: Seq<char>, m: int)
    requires
        0 <= m <= es.len(),
        forall|j: int| 0 <= j < m ==> !(is_candidate(es[j]) && es[j].0 == name),
        m == es.len() || (is_candidate(es[m]) && es[m].0 == name),
    ensures
        first_named(es, name) == m,
    decreases es.len(),
{
    if es.len() > 0 && m > 0 {
        let t = es.subrange(1, es.len() as int);
        assert forall|j: int| 0 <= j < m - 1 implies !(is_candidate(t[j]) && t[j].0 == name) by {
            assert(t[j] == es[j + 1]);
        }
        if m < es.len() {
            assert(t[m - 1] == es[m]);
        }
        lemma_first_named(t, name, m - 1);
    }
}

proof fn lemma_first_candidate(es: Seq<(Seq<char>, bool)>, m: int)
    requires
        0 <= m <= es.len(),
        forall|j: int| 0 <= j < m ==> !is_candidate(es[j]),
        m == es.len() || is_candidate(es[m]),
    ensures
        first_candidate(es) == m,
    decreases es.len(),
{
    if es.len() > 0 && m > 0 {
        let t = es.subrange(1, es.len() as int);
        assert forall|j: int| 0 <= j < m - 1 implies !is_candidate(t[j]) by {
            assert(t[j] == es[j + 1]);
        }
        if m < es.len() {
            assert(t[m - 1] == es[m]);
        }
        lemma_first_candidate(t, m - 1);
    }
}

/// Chooses the workspace file among the entries of `dir`, each a name and whether it is a
/// file: `Ok(None)` when there is no candidate, `Ok(Some(i))` for `entries[i]`.
pub fn choose_workspace(dir: &str, entries: &Vec<(String, bool)>) -> (r: Result<Option<usize>, String>)
    ensures
        match workspace_choice(dir@, entries_view(entries@)) {
            Ok(None) => r matches Ok(None),
            Ok(Some(i)) => r matches Ok(Some(j)) && j == i,
            Err(e) => r matches Err(m) && m@ == e,
        },
{
    let ghost es = entries_view(entries@);
    let expected = match file_name_of(dir) {
        Some(n) => Some(cat(n.as_str(), ".code-workspace")),
        None => None,
    };
    let mut count: usize = 0;
    let mut first: usize = entries.len();
    let mut preferred: usize = entries.len();
    let mut i: usize = 0;
    while i < entries.len()
        invariant
            es == entries_view(entries@),
            i <= entries@.len(),
            count == candidate_count(es.subrange(0, i as int)),
            count <= i,
            first == entries@.len() || (first < i && is_candidate(es[first as int])),
            forall|j: int| 0 <= j < i && j < first ==> !is_candidate(es[j]),
            preferred == entries@.len() || (preferred < i && expected is Some && is_candidate(
                es[preferred as int],
            ) && es[preferred as int].0 == expected.unwrap()@),
            forall|j: int|
                0 <= j < i && j < preferred && expected is Some ==> !(is_candidate(es[j])
                    && es[j].0 == expected.unwrap()@),
            expected is Some <==> file_name_spec(dir@) is Some,
            expected is Some ==> expected.unwrap()@ == file_name_spec(dir@).unwrap() + workspace_suffix(),
        decreases entries.len() - i,
    {
        let (name, is_file) = (&entries[i].0, entries[i].1);
        assert(es[i as int] == (name@, is_file));
        assert(es.subrange(0, i + 1).drop_last() =~= es.subrange(0, i as int));
        if is_file && has_workspace_extension_exec(name.as_str()) {
            count = count + 1;
            if first == entries.len() {
                first = i;
            }
            match &expected {
                Some(x) => {
                    if preferred == entries.len() && crate::strs::str_eq(name.as_str(), x.as_str()) {
                        preferred = i;
                    }
                },
                None => {},
            }
        }
        i = i + 1;
    }
    assert(es.subrange(0, entries@.len() as int) =~= es);
    proof {
        lemma_first_candidate(es, first as int);
        if let Some(x) = expected {
            lemma_first_named(es, x@, preferred as int);
        }
    }
    if count == 0 {
        return Ok(None);
    }
    if preferred < entries.len() {
        return Ok(Some(preferred));
    }
    if count == 1 {
        return Ok(Some(first));
    }
    let mut m = cat("multiple .code-workspace files in ", dir);
    m.append(": set HERDR_SIDEBAR_CODE_WORKSPACE");
    Err(m)
}

proof fn lemma_path_index_found<V>(v: Seq<(Seq<char>, V)>, p: Seq<char>)
    ensures
        0 <= path_index(v, p) <= v.len(),
        path_index(v, p) < v.len() ==> same_path(v[path_index(v, p)].0, p),
    decreases v.len(),
{
    if v.len() > 0 && !same_path(v[0].0, p) {
        let t = v.subrange(1, v.len() as int);
        lemma_path_index_found(t, p);
        if path_index(t, p) < t.len() {
            assert(t[path_index(t, p)] == v[path_index(t, p) + 1]);
        }
    }
}

/// A folder's identity comes from its registration alone: a folder has a task only when
/// exactly one task registers its path, and then has that task and its repository; its
/// target, if any, is what the registry gives that repository.
pub open spec fn identity_from_registration(
    regs: RegistrationsView,
    registry: Result<Seq<(Seq<char>, Result<TargetView, Seq<char>>)>, Seq<char>>,
    f: FolderView,
) -> bool {
    match f.task {
        Some(t) => exists|j: int|
            0 <= j < regs.by_path.len() && same_path(#[trigger] regs.by_path[j].0, f.path)
                && regs.by_path[j].1.len() == 1 && regs.by_path[j].1[0].task == t && f.repo_id
                == Some(regs.by_path[j].1[0].repo) && (f.target matches Some(tv) ==> (
            registry matches Ok(entries) && lookup_pair(entries, regs.by_path[j].1[0].repo)
                == Some(Ok::<TargetView, Seq<char>>(tv)))),
        None => f.repo_id is None && f.target is None,
    }
}

proof fn lemma_asm_identity(
    root: Seq<char>,
    regs: RegistrationsView,
    registry: Result<Seq<(Seq<char>, Result<TargetView, Seq<char>>)>, Seq<char>>,
    entries: Seq<FolderEntry>,
    resolved: Seq<Option<Resolved>>,
    n: nat,
)
    ensures
        forall|i: int|
            0 <= i < asm_fold(root, regs, registry, entries, resolved, n).folders.len()
                ==> identity_from_registration(
                regs,
                registry,
                #[trigger] asm_fold(root, regs, registry, entries, resolved, n).folders[i],
            ),
    decreases n,
{
    if n > 0 {
        let prev = asm_fold(root, regs, registry, entries, resolved, (n - 1) as nat);
        lemma_asm_identity(root, regs, registry, entries, resolved, (n - 1) as nat);
        let cur = asm_fold(root, regs, registry, entries, resolved, n);
        let e = entries[n - 1];
        if cur.folders.len() > prev.folders.len() {
            assert(cur.folders.drop_last() == prev.folders);
            let f = cur.folders.last();
            if let Some(rel) = e.path {
                if rel@.len() > 0 {
                    let p = resolved[n - 1].unwrap().path@;
                    if !same_path(p, root) {
                        lemma_path_index_found(regs.by_path, p);
                        let j = path_index(regs.by_path, p);
                        if j < regs.by_path.len() && regs.by_path[j].1.len() == 1 {
                            assert(f.path == p);
                            assert(identity_from_registration(regs, registry, f));
                        }
                    }
                }
            }
            assert forall|i: int| 0 <= i < cur.folders.len() implies identity_from_registration(
                regs,
                registry,
                #[trigger] cur.folders[i],
            ) by {
                if i < prev.folders.len() {
                    assert(cur.folders[i] == prev.folders[i]);
                }
            }
        }
    }
}

/// Task registrations establish identity and the registry supplies targets: every
/// assembled folder that has a task has it from the single registration of its path,
/// with that registration's repository and the registry's target for it; a folder's
/// place under `worktrees/` never gives it a task.
pub proof fn law_identity_from_registrations(
    root: Seq<char>,
    regs: RegistrationsView,
    registry: Result<Seq<(Seq<char>, Result<TargetView, Seq<char>>)>, Seq<char>>,
    entries: Seq<FolderEntry>,
    resolved: Seq<Option<Resolved>>,
)
    ensures
        forall|i: int|
            0 <= i < asm_fold(root, regs, registry, entries, resolved, entries.len()).folders.len()
                ==> identity_from_registration(
                regs,
                registry,
                #[trigger] asm_fold(root, regs, registry, entries, resolved, entries.len()).folders[i],
            ),
{
    lemma_asm_identity(root, regs, registry, entries, resolved, entries.len());
}

proof fn lemma_seq_key_index_props<V>(v: Seq<(Seq<char>, V)>, k: Seq<char>)
    ensures
        0 <= seq_key_index(v, k) <= v.len(),
        forall|m: int| 0 <= m < seq_key_index(v, k) ==> v[m].0 != k,
        seq_key_index(v, k) < v.len() ==> v[seq_key_index(v, k)].0 == k,
    decreases v.len(),
{
    if v.len() > 0 && v[0].0 != k {
        let t = v.subrange(1, v.len() as int);
        lemma_seq_key_index_props(t, k);
        assert forall|m: int| 0 <= m < seq_key_index(v, k) implies v[m].0 != k by {
            if m > 0 {
                assert(v[m] == t[m - 1]);
            }
        }
        if seq_key_index(t, k) < t.len() {
            assert(t[seq_key_index(t, k)] == v[seq_key_index(t, k) + 1]);
        }
    }
}

/// The lookup of `k` after the pair at index `j` (whose key is `kj`) is given key `kj` again.
proof fn lemma_lookup_after_update<V>(v: Seq<(Seq<char>, V)>, j: int, kj: Seq<char>, val: V, k: Seq<char>)
    requires
        0 <= j < v.len(),
        v[j].0 == kj,
        seq_key_index(v, kj) == j,
    ensures
        k == kj ==> lookup_pair(v.update(j, (kj, val)), k) == Some(val),
        k != kj ==> lookup_pair(v.update(j, (kj, val)), k) == lookup_pair(v, k),
{
    let w = v.update(j, (kj, val));
    lemma_seq_key_index_props(v, k);
    lemma_seq_key_index_props(v, kj);
    let idx = seq_key_index(v, k);
    if k == kj {
        assert forall|m: int| 0 <= m < j implies w[m].0 != k by {
            assert(w[m] == v[m]);
        }
        lemma_seq_key_index(w, k, j);
    } else {
        assert forall|m: int| 0 <= m < idx implies w[m].0 != k by {
            if m != j {
                assert(w[m] == v[m]);
            }
        }
        if idx < v.len() {
            assert(idx != j);
            assert(w[idx] == v[idx]);
        }
        lemma_seq_key_index(w, k, idx);
    }
}

/// The lookup of `k` after a pair with key `kn`, absent before, is appended.
proof fn lemma_lookup_after_push<V>(v: Seq<(Seq<char>, V)>, kn: Seq<char>, val: V, k: Seq<char>)
    requires
        seq_key_index(v, kn) == v.len(),
    ensures
        k == kn ==> lookup_pair(v.push((kn, val)), k) == Some(val),
        k != kn ==> lookup_pair(v.push((kn, val)), k) == lookup_pair(v, k),
{
    let w = v.push((kn, val));
    lemma_seq_key_index_props(v, k);
    lemma_seq_key_index_props(v, kn);
    let idx = seq_key_index(v, k);
    assert forall|m: int| 0 <= m < idx implies w[m].0 != k by {
        assert(w[m] == v[m]);
    }
    if idx < v.len() {
        assert(w[idx] == v[idx]);
        lemma_seq_key_index(w, k, idx);
    } else if k == kn {
        assert(w[idx] == (kn, val));
        lemma_seq_key_index(w, k, idx);
    } else {
        assert forall|m: int| 0 <= m < w.len() implies w[m].0 != k by {
            if m < v.len() {
                assert(w[m] == v[m]);
            }
        }
        lemma_seq_key_index(w, k, w.len() as int);
    }
}

/// How many entries have the id `k`.
pub open spec fn id_count(entries: Seq<RegistryEntry>, k: Seq<char>) -> nat
    decreases entries.len(),
{
    if entries.len() == 0 {
        0
    } else {
        id_count(entries.drop_last(), k) + if entries.last().id@ == k {
            1nat
        } else {
            0nat
        }
    }
}

/// The entry with the id `k`, for an id listed once.
pub open spec fn entry_with_id(entries: Seq<RegistryEntry>, k: Seq<char>) -> RegistryEntry
    decreases entries.len(),
{
    if entries.len() == 0 || entries.last().id@ == k {
        entries.last()
    } else {
        entry_with_id(entries.drop_last(), k)
    }
}

proof fn lemma_registry_lookup(entries: Seq<RegistryEntry>, k: Seq<char>)
    ensures
        id_count(entries, k) == 0 ==> lookup_pair(registry_spec(entries), k) is None,
        id_count(entries, k) == 1 ==> lookup_pair(registry_spec(entries), k) == Some(
            entry_target(entry_with_id(entries, k)),
        ),
        id_count(entries, k) > 1 ==> lookup_pair(registry_spec(entries), k) == Some(
            Err::<TargetView, Seq<char>>(
                "duplicate repository "@ + k + " in config/repositories.yaml"@,
            ),
        ),
    decreases entries.len(),
{
    if entries.len() == 0 {
        lemma_seq_key_index_props(Seq::<(Seq<char>, Result<TargetView, Seq<char>>)>::empty(), k);
    } else {
        let init = entries.drop_last();
        let e = entries.last();
        let before = registry_spec(init);
        lemma_registry_lookup(init, k);
        lemma_registry_lookup(init, e.id@);
        lemma_seq_key_index_props(before, e.id@);
        let j = seq_key_index(before, e.id@);
        let dup = Err::<TargetView, Seq<char>>(
            "duplicate repository "@ + e.id@ + " in config/repositories.yaml"@,
        );
        if j < before.len() {
            lemma_lookup_after_update(before, j, e.id@, dup, k);
            if e.id@ == k {
                assert(id_count(init, k) > 0);
            }
        } else {
            lemma_lookup_after_push(before, e.id@, entry_target(e), k);
            if e.id@ == k {
                assert(id_count(init, k) == 0);
            }
        }
    }
}

/// Every repository of the registry is looked up as listed: an id listed once gives its
/// entry's target (or why it has none), an id listed twice or more is an error, never one
/// of the entries chosen arbitrarily, and an unlisted id gives nothing.
pub proof fn law_registry_lookup(entries: Seq<RegistryEntry>, k: Seq<char>)
    ensures
        id_count(entries, k) == 0 ==> lookup_pair(registry_spec(entries), k) is None,
        id_count(entries, k) == 1 ==> lookup_pair(registry_spec(entries), k) == Some(
            entry_target(entry_with_id(entries, k)),
        ),
        id_count(entries, k) > 1 ==> lookup_pair(registry_spec(entries), k) == Some(
            Err::<TargetView, Seq<char>>(
                "duplicate repository "@ + k + " in config/repositories.yaml"@,
            ),
        ),
{
    lemma_registry_lookup(entries, k);
}

proof fn lemma_candidates_found(es: Seq<(Seq<char>, bool)>)
    ensures
        candidate_count(es) > 0 ==> 0 <= first_candidate(es) < es.len() && is_candidate(
            es[first_candidate(es)],
        ),
        0 <= first_candidate(es) <= es.len(),
    decreases es.len(),
{
    if es.len() > 0 {
        let t = es.subrange(1, es.len() as int);
        lemma_candidates_found(t);
        if !is_candidate(es[0]) {
            // The first entry is no candidate, so all candidates are in the tail.
            lemma_count_tail(es);
            if first_candidate(t) < t.len() {
                assert(t[first_candidate(t)] == es[first_candidate(t) + 1]);
            }
        }
    }
}

proof fn lemma_count_tail(es: Seq<(Seq<char>, bool)>)
    requires
        es.len() > 0,
    ensures
        candidate_count(es) == candidate_count(es.subrange(1, es.len() as int)) + if is_candidate(es[0]) {
            1nat
        } else {
            0nat
        },
    decreases es.len(),
{
    let t = es.subrange(1, es.len() as int);
    if es.len() > 1 {
        lemma_count_tail(es.drop_last());
        assert(es.drop_last().subrange(1, es.len() - 1) =~= t.drop_last());
        assert(es.last() == t.last());
        assert(es.drop_last()[0] == es[0]);
        assert(candidate_count(es) == candidate_count(es.drop_last()) + if is_candidate(es.last()) {
            1nat
        } else {
            0nat
        });
        assert(candidate_count(t) == candidate_count(t.drop_last()) + if is_candidate(t.last()) {
            1nat
        } else {
            0nat
        });
    } else {
        assert(t.len() == 0);
        assert(es.drop_last().len() == 0);
        assert(es.last() == es[0]);
        assert(candidate_count(es.drop_last()) == 0);
        assert(candidate_count(t) == 0);
    }
}

proof fn lemma_first_named_found(es: Seq<(Seq<char>, bool)>, name: Seq<char>)
    ensures
        0 <= first_named(es, name) <= es.len(),
        first_named(es, name) < es.len() ==> is_candidate(es[first_named(es, name)])
            && es[first_named(es, name)].0 == name,
    decreases es.len(),
{
    if es.len() > 0 && !(is_candidate(es[0]) && es[0].0 == name) {
        let t = es.subrange(1, es.len() as int);
        lemma_first_named_found(t, name);
        if first_named(t, name) < t.len() {
            assert(t[first_named(t, name)] == es[first_named(t, name) + 1]);
        }
    }
}

/// An ambiguous directory is an error, never an arbitrary choice: the file chosen is
/// always a candidate; where there are several candidates it is the one named after the
/// directory; with no candidate nothing is chosen.
pub proof fn law_workspace_choice(dir: Seq<char>, es: Seq<(Seq<char>, bool)>)
    ensures
        workspace_choice(dir, es) matches Ok(Some(i)) ==> 0 <= i < es.len() && is_candidate(es[i]),
        candidate_count(es) > 1 ==> match workspace_choice(dir, es) {
            Ok(Some(i)) => file_name_spec(dir) matches Some(n) && es[i].0 == n + workspace_suffix(),
            Ok(None) => false,
            Err(e) => e == ambiguous_text(dir),
        },
        candidate_count(es) == 0 <==> workspace_choice(dir, es) == Ok::<Option<int>, Seq<char>>(None),
{
    lemma_candidates_found(es);
    if let Some(n) = file_name_spec(dir) {
        lemma_first_named_found(es, n + workspace_suffix());
    }
}

/// No two folders share a path (compared as paths), unless it is the workspace's own
/// directory, which folders without a local path also carry.
pub open spec fn one_folder_per_path(root: Seq<char>, folders: Seq<FolderView>) -> bool {
    forall|i: int, j: int|
        0 <= i < j < folders.len() && same_path(#[trigger] folders[i].path, #[trigger] folders[j].path)
            ==> same_path(folders[j].path, root)
}

proof fn lemma_asm_distinct(
    root: Seq<char>,
    regs: RegistrationsView,
    registry: Result<Seq<(Seq<char>, Result<TargetView, Seq<char>>)>, Seq<char>>,
    entries: Seq<FolderEntry>,
    resolved: Seq<Option<Resolved>>,
    n: nat,
)
    ensures
        one_folder_per_path(root, asm_fold(root, regs, registry, entries, resolved, n).folders),
        forall|i: int|
            0 <= i < asm_fold(root, regs, registry, entries, resolved, n).folders.len()
                && !same_path(asm_fold(root, regs, registry, entries, resolved, n).folders[i].path, root)
                ==> seen_has(
                asm_fold(root, regs, registry, entries, resolved, n).seen,
                #[trigger] asm_fold(root, regs, registry, entries, resolved, n).folders[i].path,
            ),
    decreases n,
{
    if n > 0 {
        let prev = asm_fold(root, regs, registry, entries, resolved, (n - 1) as nat);
        lemma_asm_distinct(root, regs, registry, entries, resolved, (n - 1) as nat);
        let cur = asm_fold(root, regs, registry, entries, resolved, n);
        let e = entries[n - 1];
        if cur.folders.len() > prev.folders.len() {
            assert(cur.folders.drop_last() == prev.folders);
            let f = cur.folders.last();
            let last = cur.folders.len() - 1;
            // The seen paths only grow.
            assert forall|q: Seq<char>| seen_has(prev.seen, q) implies seen_has(cur.seen, q) by {
                let k = choose|k: int| 0 <= k < prev.seen.len() && same_path(prev.seen[k], q);
                if cur.seen != prev.seen {
                    assert(cur.seen == prev.seen.push(f.path));
                    assert(cur.seen[k] == prev.seen[k]);
                }
            }
            let fresh = cur.seen != prev.seen;
            if fresh {
                assert(cur.seen == prev.seen.push(f.path));
                assert(!seen_has(prev.seen, f.path));
                assert(cur.seen[prev.seen.len() as int] == f.path);
            } else {
                assert(same_path(f.path, root));
            }
            assert forall|i: int, j: int|
                0 <= i < j < cur.folders.len() && same_path(
                    #[trigger] cur.folders[i].path,
                    #[trigger] cur.folders[j].path,
                ) implies same_path(cur.folders[j].path, root) by {
                if j < last {
                    assert(cur.folders[i] == prev.folders[i]);
                    assert(cur.folders[j] == prev.folders[j]);
                } else {
                    assert(cur.folders[i] == prev.folders[i]);
                    if !same_path(prev.folders[i].path, root) && fresh {
                        let k = choose|k: int|
                            0 <= k < prev.seen.len() && same_path(prev.seen[k], prev.folders[i].path);
                        assert(same_path(prev.seen[k], f.path));
                    }
                }
            }
            assert forall|i: int|
                0 <= i < cur.folders.len() && !same_path(cur.folders[i].path, root) implies seen_has(
                cur.seen,
                #[trigger] cur.folders[i].path,
            ) by {
                if i < last {
                    assert(cur.folders[i] == prev.folders[i]);
                } else {
                    assert(same_path(cur.seen[prev.seen.len() as int], f.path));
                }
            }
        } else {
            assert(cur.folders == prev.folders);
            assert forall|q: Seq<char>| seen_has(prev.seen, q) implies seen_has(cur.seen, q) by {
                let k = choose|k: int| 0 <= k < prev.seen.len() && same_path(prev.seen[k], q);
                assert(cur.seen == prev.seen);
            }
        }
    }
}

/// Canonical paths identify one physical checkout: the workspace yields one folder per
/// selected path, an entry naming a path selected before adding none.
pub proof fn law_one_folder_per_checkout(
    root: Seq<char>,
    regs: RegistrationsView,
    registry: Result<Seq<(Seq<char>, Result<TargetView, Seq<char>>)>, Seq<char>>,
    entries: Seq<FolderEntry>,
    resolved: Seq<Option<Resolved>>,
)
    ensures
        one_folder_per_path(
            root,
            asm_fold(root, regs, registry, entries, resolved, entries.len()).folders,
        ),
{
    lemma_asm_distinct(root, regs, registry, entries, resolved, entries.len());
}

/// No key occurs twice.
pub open spec fn distinct_keys<V>(v: Seq<(Seq<char>, V)>) -> bool {
    forall|i: int, j: int| 0 <= i < j < v.len() ==> #[trigger] v[i].0 != #[trigger] v[j].0
}

/// No path occurs twice (compared as paths).
pub open spec fn distinct_paths<V>(v: Seq<(Seq<char>, V)>) -> bool {
    forall|i: int, j: int| 0 <= i < j < v.len() ==> !same_path(#[trigger] v[i].0, #[trigger] v[j].0)
}

/// Registrations as their operations keep them: one entry per path, each with at least
/// one claim, and one entry per invalid task.
pub open spec fn registrations_wf(r: RegistrationsView) -> bool {
    &&& distinct_paths(r.by_path)
    &&& forall|i: int| 0 <= i < r.by_path.len() ==> (#[trigger] r.by_path[i]).1.len() > 0
    &&& distinct_keys(r.invalid_tasks)
}

proof fn lemma_insert_pair_distinct<V>(m: Seq<(Seq<char>, V)>, k: Seq<char>, v: V)
    requires
        distinct_keys(m),
    ensures
        distinct_keys(insert_pair(m, k, v)),
{
    lemma_seq_key_index_props(m, k);
    let j = seq_key_index(m, k);
    let r = insert_pair(m, k, v);
    assert forall|a: int, b: int| 0 <= a < b < r.len() implies #[trigger] r[a].0 != #[trigger] r[b].0 by {
        if j < m.len() {
            assert(r[a].0 == m[a].0);
            assert(r[b].0 == m[b].0);
        } else if b < m.len() {
            assert(r[a] == m[a]);
            assert(r[b] == m[b]);
        } else {
            assert(r[a] == m[a]);
            assert(r[b].0 == k);
        }
    }
}

proof fn lemma_path_index_props<V>(v: Seq<(Seq<char>, V)>, p: Seq<char>)
    ensures
        forall|m: int| 0 <= m < path_index(v, p) ==> !same_path(v[m].0, p),
    decreases v.len(),
{
    lemma_path_index_found(v, p);
    if v.len() > 0 && !same_path(v[0].0, p) {
        let t = v.subrange(1, v.len() as int);
        lemma_path_index_props(t, p);
        lemma_path_index_found(t, p);
        assert forall|m: int| 0 <= m < path_index(v, p) implies !same_path(v[m].0, p) by {
            if m > 0 {
                assert(v[m] == t[m - 1]);
            }
        }
    }
}

proof fn lemma_register_wf(r: RegistrationsView, path: Seq<char>, reg: RegistrationView)
    requires
        registrations_wf(r),
    ensures
        registrations_wf(register_spec(r, path, reg)),
{
    lemma_path_index_found(r.by_path, path);
    lemma_path_index_props(r.by_path, path);
    let j = path_index(r.by_path, path);
    let n = register_spec(r, path, reg).by_path;
    assert forall|a: int, b: int| 0 <= a < b < n.len() implies !same_path(
        #[trigger] n[a].0,
        #[trigger] n[b].0,
    ) by {
        if j < r.by_path.len() {
            assert(n[a].0 == r.by_path[a].0);
            assert(n[b].0 == r.by_path[b].0);
        } else if b < r.by_path.len() {
            assert(n[a] == r.by_path[a]);
            assert(n[b] == r.by_path[b]);
        } else {
            assert(n[a] == r.by_path[a]);
            assert(n[b].0 == path);
        }
    }
    assert forall|i: int| 0 <= i < n.len() implies (#[trigger] n[i]).1.len() > 0 by {
        if i < r.by_path.len() && i != j {
            assert(n[i] == r.by_path[i]);
        }
    }
}

proof fn lemma_mark_invalid_wf(r: RegistrationsView, slug: Seq<char>, error: Seq<char>)
    requires
        registrations_wf(r),
    ensures
        registrations_wf(mark_invalid_spec(r, slug, error)),
{
    lemma_insert_pair_distinct(r.invalid_tasks, slug, error);
}

proof fn lemma_worktrees_fold_wf(
    r: RegistrationsView,
    slug: Seq<char>,
    w: TaskWorkspace,
    normalized: Seq<Seq<char>>,
    n: nat,
)
    requires
        registrations_wf(r),
    ensures
        registrations_wf(worktrees_fold(r, slug, w, normalized, n)),
    decreases n,
{
    if n > 0 {
        lemma_worktrees_fold_wf(r, slug, w, normalized, (n - 1) as nat);
        let prev = worktrees_fold(r, slug, w, normalized, (n - 1) as nat);
        let repo = w.worktrees@[n - 1].0@;
        if declares(w.repos@, repo) {
            lemma_register_wf(
                prev,
                normalized[n - 1],
                RegistrationView { task: slug, repo, declared: w.repos@.len() as usize },
            );
        } else {
            lemma_mark_invalid_wf(prev, slug, "task "@ + slug + " registers undeclared repository "@ + repo);
        }
    }
}

proof fn lemma_record_task_wf(
    r: RegistrationsView,
    slug: Seq<char>,
    task: TaskFile,
    normalized: Seq<Seq<char>>,
)
    requires
        registrations_wf(r),
    ensures
        registrations_wf(record_task_spec(r, slug, task, normalized)),
{
    if task.id@ != slug {
        lemma_mark_invalid_wf(r, slug, "task id "@ + task.id@ + " does not match "@ + slug);
    } else {
        match task.workspace {
            None => lemma_mark_invalid_wf(r, slug, "task "@ + slug + " has no workspace registration"@),
            Some(w) => lemma_worktrees_fold_wf(r, slug, w, normalized, w.worktrees@.len()),
        }
    }
}

proof fn lemma_registry_distinct(entries: Seq<RegistryEntry>)
    ensures
        distinct_keys(registry_spec(entries)),
    decreases entries.len(),
{
    if entries.len() > 0 {
        let init = entries.drop_last();
        let e = entries.last();
        lemma_registry_distinct(init);
        let before = registry_spec(init);
        lemma_seq_key_index_props(before, e.id@);
        let j = seq_key_index(before, e.id@);
        let r = registry_spec(entries);
        assert forall|a: int, b: int| 0 <= a < b < r.len() implies #[trigger] r[a].0 != #[trigger] r[b].0 by {
            if j < before.len() {
                assert(r[a].0 == before[a].0);
                assert(r[b].0 == before[b].0);
            } else if b < before.len() {
                assert(r[a] == before[a]);
                assert(r[b] == before[b]);
            } else {
                assert(r[a] == before[a]);
                assert(r[b].0 == e.id@);
            }
        }
    }
}

proof fn lemma_asm_declared_sorted(
    root: Seq<char>,
    regs: RegistrationsView,
    registry: Result<Seq<(Seq<char>, Result<TargetView, Seq<char>>)>, Seq<char>>,
    entries: Seq<FolderEntry>,
    resolved: Seq<Option<Resolved>>,
    n: nat,
)
    ensures
        sorted_keys(asm_fold(root, regs, registry, entries, resolved, n).declared),
        distinct_keys(asm_fold(root, regs, registry, entries, resolved, n).declared),
    decreases n,
{
    if n > 0 {
        lemma_asm_declared_sorted(root, regs, registry, entries, resolved, (n - 1) as nat);
        let prev = asm_fold(root, regs, registry, entries, resolved, (n - 1) as nat);
        let cur = asm_fold(root, regs, registry, entries, resolved, n);
        if cur.declared != prev.declared {
            let p = resolved[n - 1].unwrap().path@;
            let ms = regs.by_path[path_index(regs.by_path, p)].1;
            lemma_insert_sorted(prev.declared, ms[0].task, ms[0].declared);
        }
    }
    lemma_sorted_distinct(asm_fold(root, regs, registry, entries, resolved, n).declared);
}

/// The keys in increasing order (as `str` orders them), hence each once.
pub open spec fn sorted_keys<V>(v: Seq<(Seq<char>, V)>) -> bool {
    forall|i: int, j: int| 0 <= i < j < v.len() ==> seq_lt(#[trigger] v[i].0, #[trigger] v[j].0)
}

/// The index of the first pair whose key is not below `k`, or the length.
pub open spec fn lower_bound<V>(v: Seq<(Seq<char>, V)>, k: Seq<char>) -> int
    decreases v.len(),
{
    if v.len() == 0 {
        0
    } else if !seq_lt(v[0].0, k) {
        0
    } else {
        1 + lower_bound(v.subrange(1, v.len() as int), k)
    }
}

/// `map.insert(k, v)` on a `BTreeMap` held as sorted pairs: the value of an existing key
/// is replaced, else the pair goes where its key keeps the order.
pub open spec fn insert_sorted<V>(m: Seq<(Seq<char>, V)>, k: Seq<char>, v: V) -> Seq<(Seq<char>, V)> {
    let p = lower_bound(m, k);
    if p < m.len() && m[p].0 == k {
        m.update(p, (k, v))
    } else {
        m.insert(p, (k, v))
    }
}

proof fn lemma_lower_bound<V>(v: Seq<(Seq<char>, V)>, k: Seq<char>, m: int)
    requires
        0 <= m <= v.len(),
        forall|j: int| 0 <= j < m ==> seq_lt(#[trigger] v[j].0, k),
        m == v.len() || !seq_lt(v[m].0, k),
    ensures
        lower_bound(v, k) == m,
    decreases v.len(),
{
    if v.len() > 0 && m > 0 {
        let t = v.subrange(1, v.len() as int);
        assert(seq_lt(v[0].0, k));
        assert forall|j: int| 0 <= j < m - 1 implies seq_lt(#[trigger] t[j].0, k) by {
            assert(t[j] == v[j + 1]);
        }
        if m < v.len() {
            assert(t[m - 1] == v[m]);
        }
        lemma_lower_bound(t, k, m - 1);
    }
}

proof fn lemma_lower_bound_props<V>(v: Seq<(Seq<char>, V)>, k: Seq<char>)
    ensures
        0 <= lower_bound(v, k) <= v.len(),
        forall|j: int| 0 <= j < lower_bound(v, k) ==> seq_lt(#[trigger] v[j].0, k),
        lower_bound(v, k) < v.len() ==> !seq_lt(v[lower_bound(v, k)].0, k),
    decreases v.len(),
{
    if v.len() > 0 && seq_lt(v[0].0, k) {
        let t = v.subrange(1, v.len() as int);
        lemma_lower_bound_props(t, k);
        assert forall|j: int| 0 <= j < lower_bound(v, k) implies seq_lt(#[trigger] v[j].0, k) by {
            if j > 0 {
                assert(v[j] == t[j - 1]);
            }
        }
        if lower_bound(t, k) < t.len() {
            assert(t[lower_bound(t, k)] == v[lower_bound(t, k) + 1]);
        }
    }
}

proof fn lemma_sorted_distinct<V>(v: Seq<(Seq<char>, V)>)
    requires
        sorted_keys(v),
    ensures
        distinct_keys(v),
{
    assert forall|i: int, j: int| 0 <= i < j < v.len() implies #[trigger] v[i].0 != #[trigger] v[j].0 by {
        lemma_seq_lt_order(v[i].0, v[j].0, v[j].0);
    }
}

proof fn lemma_insert_sorted<V>(m: Seq<(Seq<char>, V)>, k: Seq<char>, v: V)
    requires
        sorted_keys(m),
    ensures
        sorted_keys(insert_sorted(m, k, v)),
{
    lemma_lower_bound_props(m, k);
    let p = lower_bound(m, k);
    let r = insert_sorted(m, k, v);
    if p < m.len() && m[p].0 == k {
        assert forall|a: int, b: int| 0 <= a < b < r.len() implies seq_lt(#[trigger] r[a].0, #[trigger] r[b].0) by {
            assert(r[a].0 == m[a].0);
            assert(r[b].0 == m[b].0);
        }
    } else {
        if p < m.len() {
            lemma_seq_lt_order(m[p].0, k, k);
        }
        assert forall|a: int, b: int| 0 <= a < b < r.len() implies seq_lt(#[trigger] r[a].0, #[trigger] r[b].0) by {
            if b < p {
                assert(r[a] == m[a] && r[b] == m[b]);
            } else if b == p {
                assert(r[a] == m[a]);
                assert(r[b].0 == k);
            } else if a < p {
                assert(r[a] == m[a]);
                assert(r[b] == m[b - 1]);
            } else if a == p {
                assert(r[a].0 == k);
                assert(r[b] == m[b - 1]);
                assert(seq_lt(k, m[p].0));
                if b - 1 > p {
                    assert(seq_lt(m[p].0, m[b - 1].0));
                    lemma_seq_lt_order(k, m[p].0, m[b - 1].0);
                }
            } else {
                assert(r[a] == m[a - 1] && r[b] == m[b - 1]);
            }
        }
    }
}


/// A claim made by recording the task `slug` whose workspace declares `repos`: it names the
/// task, one of the declared repositories, and how many repositories the task declares.
pub open spec fn added_by_task(g: RegistrationView, slug: Seq<char>, repos: Seq<String>) -> bool {
    g.task == slug && g.declared == repos.len() as usize && declares(repos, g.repo)
}

/// `after` keeps every path of `before` and, under each, its claims in their order; every
/// claim it adds, under an old path or a new one, is `added_by_task`.
pub open spec fn only_adds_claims(
    before: Seq<(Seq<char>, Seq<RegistrationView>)>,
    after: Seq<(Seq<char>, Seq<RegistrationView>)>,
    slug: Seq<char>,
    repos: Seq<String>,
) -> bool {
    before.len() <= after.len() && forall|j: int|
        #![trigger after[j]]
        0 <= j < after.len() ==> {
            let kept = if j < before.len() {
                before[j].1
            } else {
                Seq::<RegistrationView>::empty()
            };
            (j < before.len() ==> after[j].0 == before[j].0) && kept.len() <= after[j].1.len()
                && after[j].1.subrange(0, kept.len() as int) == kept && forall|q: int|
                kept.len() <= q < after[j].1.len() ==> added_by_task(
                    #[trigger] after[j].1[q],
                    slug,
                    repos,
                )
        }
}

proof fn lemma_only_adds_refl(
    v: Seq<(Seq<char>, Seq<RegistrationView>)>,
    slug: Seq<char>,
    repos: Seq<String>,
)
    ensures
        only_adds_claims(v, v, slug, repos),
{
    assert forall|j: int| 0 <= j < v.len() implies v[j].1.subrange(0, v[j].1.len() as int)
        == v[j].1 by {
        assert(v[j].1.subrange(0, v[j].1.len() as int) =~= v[j].1);
    }
}

proof fn lemma_register_only_adds(
    before: Seq<(Seq<char>, Seq<RegistrationView>)>,
    prev: RegistrationsView,
    path: Seq<char>,
    reg: RegistrationView,
    slug: Seq<char>,
    repos: Seq<String>,
)
    requires
        only_adds_claims(before, prev.by_path, slug, repos),
        added_by_task(reg, slug, repos),
    ensures
        only_adds_claims(before, register_spec(prev, path, reg).by_path, slug, repos),
{
    let a = prev.by_path;
    let b = register_spec(prev, path, reg).by_path;
    let j0 = path_index(a, path);
    lemma_path_index_found(a, path);
    assert forall|j: int| #![trigger b[j]] 0 <= j < b.len() implies {
        let kept = if j < before.len() {
            before[j].1
        } else {
            Seq::<RegistrationView>::empty()
        };
        (j < before.len() ==> b[j].0 == before[j].0) && kept.len() <= b[j].1.len()
            && b[j].1.subrange(0, kept.len() as int) == kept && forall|q: int|
            kept.len() <= q < b[j].1.len() ==> added_by_task(#[trigger] b[j].1[q], slug, repos)
    } by {
        let kept = if j < before.len() {
            before[j].1
        } else {
            Seq::<RegistrationView>::empty()
        };
        if j < a.len() {
            if j != j0 {
                assert(b[j] == a[j]);
            } else {
                assert(b[j].1 == a[j].1.push(reg));
                assert(b[j].1.subrange(0, kept.len() as int) =~= a[j].1.subrange(0, kept.len() as int));
                assert forall|q: int| kept.len() <= q < b[j].1.len() implies added_by_task(
                    #[trigger] b[j].1[q],
                    slug,
                    repos,
                ) by {
                    if q < a[j].1.len() {
                        assert(b[j].1[q] == a[j].1[q]);
                    }
                }
            }
        } else {
            assert(b[j].1 == seq![reg]);
            assert(kept.len() == 0);
            assert(b[j].1.subrange(0, 0) =~= kept);
        }
    }
}

proof fn lemma_fold_only_adds(
    r: RegistrationsView,
    slug: Seq<char>,
    w: TaskWorkspace,
    normalized: Seq<Seq<char>>,
    n: nat,
)
    ensures
        only_adds_claims(r.by_path, worktrees_fold(r, slug, w, normalized, n).by_path, slug, w.repos@),
    decreases n,
{
    if n == 0 {
        lemma_only_adds_refl(r.by_path, slug, w.repos@);
    } else {
        lemma_fold_only_adds(r, slug, w, normalized, (n - 1) as nat);
        let prev = worktrees_fold(r, slug, w, normalized, (n - 1) as nat);
        let repo = w.worktrees@[n - 1].0@;
        if declares(w.repos@, repo) {
            lemma_register_only_adds(
                r.by_path,
                prev,
                normalized[n - 1],
                RegistrationView { task: slug, repo, declared: w.repos@.len() as usize },
                slug,
                w.repos@,
            );
        }
    }
}

/// Recording a task keeps every claim made before; every claim it adds is the task's own,
/// names a repository the task declares, and carries the number of repositories the task
/// declares, however many of them have a worktree. A task without a workspace adds none.
pub proof fn law_record_task_claims(
    r: RegistrationsView,
    slug: Seq<char>,
    task: TaskFile,
    normalized: Seq<Seq<char>>,
)
    ensures
        match task.workspace {
            Some(w) => only_adds_claims(
                r.by_path,
                record_task_spec(r, slug, task, normalized).by_path,
                slug,
                w.repos@,
            ),
            None => record_task_spec(r, slug, task, normalized).by_path == r.by_path,
        },
{
    if let Some(w) = task.workspace {
        if task.id@ != slug {
            lemma_only_adds_refl(r.by_path, slug, w.repos@);
        } else {
            lemma_fold_only_adds(r, slug, w, normalized, w.worktrees@.len());
        }
    }
}


/// Each folder entry adds at most one folder, at the end, keeping those before it; it adds
/// none only when it selects a path that was selected already. The folder it adds is
/// labelled by the entry's name unless that is missing or empty, else by the entry's path
/// as written, and `<no path>` only when the entry has no path.
pub proof fn law_folder_label(
    root: Seq<char>,
    regs: RegistrationsView,
    registry: Result<Seq<(Seq<char>, Result<TargetView, Seq<char>>)>, Seq<char>>,
    st: Assembly,
    index: nat,
    e: FolderEntry,
    res: Option<Resolved>,
)
    ensures
        ({
            let next = asm_step(root, regs, registry, st, index, e, res);
            let named = e.name is Some && e.name->Some_0@.len() > 0;
            (next.folders == st.folders && needs_resolution(e) && seen_has(
                st.seen,
                res->Some_0.path@,
            )) || (next.folders.len() == st.folders.len() + 1 && next.folders.drop_last()
                == st.folders && (named ==> next.folders.last().label == e.name->Some_0@) && (
            !named && e.path is Some ==> next.folders.last().label == e.path->Some_0@) && (!named
                && e.path is None ==> next.folders.last().label == "<no path>"@))
        }),
{
    let next = asm_step(root, regs, registry, st, index, e, res);
    if next.folders.len() == st.folders.len() + 1 {
        assert(next.folders.drop_last() =~= st.folders);
    }
}

/// A file whose name is any non-empty stem followed by `.code-workspace` is a candidate,
/// whatever characters the stem holds; a directory whose only entry is such a file
/// chooses it. Conversely, every name with the workspace extension is such a name.
pub proof fn law_workspace_file_names(stem: Seq<char>, dir: Seq<char>, name: Seq<char>)
    ensures
        stem.len() > 0 ==> is_candidate((stem + ".code-workspace"@, true)),
        stem.len() > 0 ==> workspace_choice(dir, seq![(stem + ".code-workspace"@, true)])
            == Ok::<Option<int>, Seq<char>>(Some(0)),
        has_workspace_extension(name) <==> name.len() > 15 && name.subrange(0, name.len() - 15)
            + ".code-workspace"@ == name,
{
    reveal_strlit(".code-workspace");
    let full = stem + ".code-workspace"@;
    if stem.len() > 0 {
        assert(full.subrange(full.len() - 15, full.len() as int) =~= ".code-workspace"@);
        let es = seq![(full, true)];
        assert(has_workspace_extension(full));
        assert(is_candidate(es[0]));
        assert(es.drop_last() =~= Seq::<(Seq<char>, bool)>::empty());
        assert(candidate_count(es.drop_last()) == 0);
        assert(candidate_count(es) == 1);
        assert(es.subrange(1, 1) =~= Seq::<(Seq<char>, bool)>::empty());
        assert(first_candidate(es) == 0);
        if let Some(n) = file_name_spec(dir) {
            assert(first_named(es.subrange(1, 1), n + workspace_suffix()) == 0);
        }
    }
    if name.len() > 15 {
        let t = name.subrange(0, name.len() - 15);
        if name.subrange(name.len() - 15, name.len() as int) == ".code-workspace"@ {
            assert(t + ".code-workspace"@ =~= name);
        }
        if t + ".code-workspace"@ == name {
            assert(name.subrange(name.len() - 15, name.len() as int) =~= ".code-workspace"@);
        }
    }
}

} // verus!
