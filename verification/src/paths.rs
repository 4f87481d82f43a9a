//! Unix paths as strings, read component by component as `std::path::Path` reads them.
use vstd::prelude::*;

use crate::strs::{split_on, split_char, views, str_eq, cat, cat3, opt_string_view};

verus! {

/// A path component, as `std::path::Component` names them on Unix.
pub enum Comp {
    RootDir,
    CurDir,
    ParentDir,
    Normal(Seq<char>),
}

/// A path component held in a string.
pub enum Component {
    RootDir,
    CurDir,
    ParentDir,
    Normal(String),
}

impl View for Component {
    type V = Comp;

    open spec fn view(&self) -> Comp {
        match self {
            Component::RootDir => Comp::RootDir,
            Component::CurDir => Comp::CurDir,
            Component::ParentDir => Comp::ParentDir,
            Component::Normal(n) => Comp::Normal(n@),
        }
    }
}

pub open spec fn comps_view(v: Seq<Component>) -> Seq<Comp> {
    v.map_values(|c: Component| c@)
}

/// The components of the pieces between separators: empty pieces and `.` are dropped.
pub open spec fn piece_comps(ps: Seq<Seq<char>>) -> Seq<Comp>
    decreases ps.len(),
{
    if ps.len() == 0 {
        seq![]
    } else {
        let p = ps[0];
        let rest = piece_comps(ps.subrange(1, ps.len() as int));
        if p.len() == 0 || p == "."@ {
            rest
        } else if p == ".."@ {
            seq![Comp::ParentDir] + rest
        } else {
            seq![Comp::Normal(p)] + rest
        }
    }
}

/// `Path::components`: a leading `/` is the root; a leading `.` of a relative path is the
/// current directory; repeated separators and other `.` pieces are ignored.
pub open spec fn components(p: Seq<char>) -> Seq<Comp> {
    if p.len() > 0 && p[0] == '/' {
        seq![Comp::RootDir] + piece_comps(split_on(p.subrange(1, p.len() as int), '/'))
    } else if p.len() > 0 && p[0] == '.' && (p.len() == 1 || p[1] == '/') {
        seq![Comp::CurDir] + piece_comps(split_on(p.subrange(1, p.len() as int), '/'))
    } else {
        piece_comps(split_on(p, '/'))
    }
}

/// Paths are equal as `Path`s are: component by component.
pub open spec fn same_path(a: Seq<char>, b: Seq<char>) -> bool {
    components(a) == components(b)
}

/// `Path::join`: an absolute `rel` replaces `base`; otherwise a separator is put between
/// them where `base` does not already end in one.
pub open spec fn join_spec(base: Seq<char>, rel: Seq<char>) -> Seq<char> {
    if rel.len() > 0 && rel[0] == '/' {
        rel
    } else if base.len() > 0 && base[base.len() - 1] != '/' {
        base + "/"@ + rel
    } else {
        base + rel
    }
}

/// `base.join(rel)`.
pub fn join(base: &str, rel: &str) -> (r: String)
    ensures
        r@ == join_spec(base@, rel@),
{
    if rel.unicode_len() > 0 && rel.get_char(0) == '/' {
        return String::from_str(rel);
    }
    let n = base.unicode_len();
    if n > 0 && base.get_char(n - 1) != '/' {
        cat3(base, "/", rel)
    } else {
        cat(base, rel)
    }
}

fn piece_component(p: &str) -> (r: Option<Component>)
    ensures
        match r {
            None => p@.len() == 0 || p@ == "."@,
            Some(c) => p@.len() != 0 && p@ != "."@ && if p@ == ".."@ {
                c@ == Comp::ParentDir
            } else {
                c@ == Comp::Normal(p@)
            },
        },
{
    proof {
        reveal_strlit(".");
        reveal_strlit("..");
    }
    let n = p.unicode_len();
    if n == 0 {
        return None;
    }
    if n == 1 && p.get_char(0) == '.' {
        assert(p@ =~= "."@);
        return None;
    }
    if n == 2 && p.get_char(0) == '.' && p.get_char(1) == '.' {
        assert(p@ =~= ".."@);
        return Some(Component::ParentDir);
    }
    assert(p@ != ".."@) by {
        if p@ == ".."@ {
            assert(p@.len() == 2 && p@[0] == '.' && p@[1] == '.');
        }
    }
    assert(p@ != "."@) by {
        if p@ == "."@ {
            assert(p@.len() == 1 && p@[0] == '.');
        }
    }
    Some(Component::Normal(String::from_str(p)))
}

fn pieces_components(ps: &Vec<String>) -> (r: Vec<Component>)
    ensures
        comps_view(r@) == piece_comps(views(ps@)),
{
    let ghost v = views(ps@);
    let mut out: Vec<Component> = Vec::new();
    let mut i: usize = 0;
    assert(v.subrange(0, ps.len() as int) =~= v);
    assert(comps_view(out@) =~= seq![]);
    while i < ps.len()
        invariant
            v == views(ps@),
            i <= ps.len(),
            piece_comps(v) == comps_view(out@) + piece_comps(v.subrange(i as int, ps.len() as int)),
        decreases ps.len() - i,
    {
        let ghost here = v.subrange(i as int, ps.len() as int);
        let ghost rest = v.subrange(i + 1, ps.len() as int);
        assert(here.subrange(1, here.len() as int) =~= rest);
        assert(here[0] == ps@[i as int]@);
        let ghost before = comps_view(out@);
        match piece_component(ps[i].as_str()) {
            None => {},
            Some(c) => {
                out.push(c);
                assert(comps_view(out@) =~= before.push(c@));
                assert(before + (seq![c@] + piece_comps(rest)) =~= comps_view(out@) + piece_comps(rest));
            },
        }
        i = i + 1;
    }
    assert(v.subrange(ps.len() as int, ps.len() as int) =~= Seq::<Seq<char>>::empty());
    assert(comps_view(out@) + seq![] =~= comps_view(out@));
    out
}

/// `path.components()`.
pub fn components_of(p: &str) -> (r: Vec<Component>)
    ensures
        comps_view(r@) == components(p@),
{
    let n = p.unicode_len();
    if n > 0 && p.get_char(0) == '/' {
        let pieces = split_char(p.substring_char(1, n), '/');
        let body = pieces_components(&pieces);
        let mut r = vec![Component::RootDir];
        let ghost b = comps_view(body@);
        let mut body = body;
        r.append(&mut body);
        assert(comps_view(r@) =~= seq![Comp::RootDir] + b);
        r
    } else if n > 0 && p.get_char(0) == '.' && (n == 1 || p.get_char(1) == '/') {
        let pieces = split_char(p.substring_char(1, n), '/');
        let body = pieces_components(&pieces);
        let mut r = vec![Component::CurDir];
        let ghost b = comps_view(body@);
        let mut body = body;
        r.append(&mut body);
        assert(comps_view(r@) =~= seq![Comp::CurDir] + b);
        r
    } else {
        let pieces = split_char(p, '/');
        pieces_components(&pieces)
    }
}

fn same_component(a: &Component, b: &Component) -> (r: bool)
    ensures
        r == (a@ == b@),
{
    match (a, b) {
        (Component::RootDir, Component::RootDir) => true,
        (Component::CurDir, Component::CurDir) => true,
        (Component::ParentDir, Component::ParentDir) => true,
        (Component::Normal(x), Component::Normal(y)) => str_eq(x.as_str(), y.as_str()),
        _ => false,
    }
}

/// Whether `a` holds the components of `b` first.
fn starts_with_components(a: &Vec<Component>, b: &Vec<Component>) -> (r: bool)
    ensures
        r == (b@.len() <= a@.len() && comps_view(a@).subrange(0, b@.len() as int) == comps_view(b@)),
{
    if b.len() > a.len() {
        return false;
    }
    let mut i: usize = 0;
    while i < b.len()
        invariant
            b@.len() <= a@.len(),
            i <= b@.len(),
            forall|j: int| 0 <= j < i ==> a@[j]@ == b@[j]@,
        decreases b.len() - i,
    {
        if !same_component(&a[i], &b[i]) {
            assert(comps_view(a@).subrange(0, b@.len() as int)[i as int] != comps_view(b@)[i as int]);
            return false;
        }
        i = i + 1;
    }
    assert(comps_view(a@).subrange(0, b@.len() as int) =~= comps_view(b@));
    true
}

/// Whether `a` and `b` name the same path, component by component.
pub fn same_path_exec(a: &str, b: &str) -> (r: bool)
    ensures
        r == same_path(a@, b@),
{
    let ca = components_of(a);
    let cb = components_of(b);
    if ca.len() != cb.len() {
        assert(comps_view(ca@).len() != comps_view(cb@).len());
        return false;
    }
    let r = starts_with_components(&ca, &cb);
    proof {
        assert(comps_view(ca@).subrange(0, cb@.len() as int) =~= comps_view(ca@));
    }
    r
}

/// The text of a component (`Component::as_os_str`).
pub open spec fn comp_text(c: Comp) -> Seq<char> {
    match c {
        Comp::RootDir => "/"@,
        Comp::CurDir => "."@,
        Comp::ParentDir => ".."@,
        Comp::Normal(n) => n,
    }
}

fn component_text(c: &Component) -> (r: String)
    ensures
        r@ == comp_text(c@),
{
    match c {
        Component::RootDir => String::from_str("/"),
        Component::CurDir => String::from_str("."),
        Component::ParentDir => String::from_str(".."),
        Component::Normal(n) => String::from_str(n.as_str()),
    }
}

/// The task directory that a path lies in, going by its place under `<root>/worktrees`:
/// the first component after that prefix, if the path has one.
pub open spec fn task_slug_spec(path: Seq<char>, root: Seq<char>) -> Option<Seq<char>> {
    let prefix = components(join_spec(root, "worktrees"@));
    let pc = components(path);
    if pc.len() > prefix.len() && pc.subrange(0, prefix.len() as int) == prefix {
        Some(comp_text(pc[prefix.len() as int]))
    } else {
        None
    }
}

/// The first component of `path` below `<root>/worktrees`. The path is used only as a
/// diagnostic hint, never to grant task identity.
pub fn task_slug(path: &str, root: &str) -> (r: Option<String>)
    ensures
        opt_string_view(r) == task_slug_spec(path@, root@),
{
    let w = join(root, "worktrees");
    let prefix = components_of(w.as_str());
    let pc = components_of(path);
    if pc.len() > prefix.len() && starts_with_components(&pc, &prefix) {
        Some(component_text(&pc[prefix.len()]))
    } else {
        None
    }
}

/// Reads components as `PathBuf` pushes and pops them: the root starts over from `/`, `.`
/// does nothing, `..` drops the last name (if any), a name is appended.
pub open spec fn normal_fold(cs: Seq<Comp>, absolute: bool, names: Seq<Seq<char>>) -> (bool, Seq<Seq<char>>)
    decreases cs.len(),
{
    if cs.len() == 0 {
        (absolute, names)
    } else {
        let rest = cs.subrange(1, cs.len() as int);
        match cs[0] {
            Comp::RootDir => normal_fold(rest, true, seq![]),
            Comp::CurDir => normal_fold(rest, absolute, names),
            Comp::ParentDir => normal_fold(
                rest,
                absolute,
                if names.len() > 0 {
                    names.drop_last()
                } else {
                    names
                },
            ),
            Comp::Normal(n) => normal_fold(rest, absolute, names.push(n)),
        }
    }
}

/// Names joined by `/`.
pub open spec fn join_names(names: Seq<Seq<char>>) -> Seq<char>
    decreases names.len(),
{
    if names.len() == 0 {
        seq![]
    } else if names.len() == 1 {
        names[0]
    } else {
        join_names(names.drop_last()) + "/"@ + names.last()
    }
}

pub open spec fn render(absolute: bool, names: Seq<Seq<char>>) -> Seq<char> {
    (if absolute {
        "/"@
    } else {
        seq![]
    }) + join_names(names)
}

/// A path with `.` and `..` resolved lexically, as a fallback for paths that cannot be
/// canonicalized.
pub open spec fn lexical_normal_spec(p: Seq<char>) -> Seq<char> {
    let (absolute, names) = normal_fold(components(p), false, seq![]);
    render(absolute, names)
}

fn render_exec(absolute: bool, names: &Vec<String>) -> (r: String)
    ensures
        r@ == render(absolute, views(names@)),
{
    let mut r = if absolute {
        String::from_str("/")
    } else {
        String::new()
    };
    let ghost lead = r@;
    let mut i: usize = 0;
    assert(views(names@).subrange(0, 0) =~= Seq::<Seq<char>>::empty());
    while i < names.len()
        invariant
            i <= names.len(),
            lead == (if absolute { "/"@ } else { Seq::<char>::empty() }),
            r@ == lead + join_names(views(names@).subrange(0, i as int)),
        decreases names.len() - i,
    {
        let ghost pre = views(names@).subrange(0, i as int);
        let ghost next = views(names@).subrange(0, i + 1);
        assert(next.drop_last() =~= pre);
        assert(next.last() == names@[i as int]@);
        if i > 0 {
            r.append("/");
        }
        r.append(names[i].as_str());
        proof {
            if i == 0 {
                assert(join_names(pre) =~= Seq::<char>::empty());
                assert(join_names(next) == names@[0]@);
            }
            assert(r@ =~= lead + join_names(next));
        }
        i = i + 1;
    }
    assert(views(names@).subrange(0, names.len() as int) =~= views(names@));
    r
}

/// `normalized`'s fallback: the path rebuilt from its components, `.` skipped and `..`
/// popping the last name.
pub fn lexical_normal(p: &str) -> (r: String)
    ensures
        r@ == lexical_normal_spec(p@),
{
    let cs = components_of(p);
    let ghost all = comps_view(cs@);
    let mut absolute = false;
    let mut names: Vec<String> = Vec::new();
    let mut i: usize = 0;
    assert(all.subrange(0, all.len() as int) =~= all);
    assert(views(names@) =~= seq![]);
    while i < cs.len()
        invariant
            all == comps_view(cs@),
            i <= cs.len(),
            normal_fold(all, false, seq![]) == normal_fold(
                all.subrange(i as int, all.len() as int),
                absolute,
                views(names@),
            ),
        decreases cs.len() - i,
    {
        let ghost here = all.subrange(i as int, all.len() as int);
        assert(here.subrange(1, here.len() as int) =~= all.subrange(i + 1, all.len() as int));
        assert(here[0] == cs@[i as int]@);
        let ghost before = views(names@);
        match &cs[i] {
            Component::RootDir => {
                absolute = true;
                names = Vec::new();
                assert(views(names@) =~= seq![]);
            },
            Component::CurDir => {},
            Component::ParentDir => {
                if names.len() > 0 {
                    names.pop();
                    assert(views(names@) =~= before.drop_last());
                }
            },
            Component::Normal(n) => {
                names.push(String::from_str(n.as_str()));
                assert(views(names@) =~= before.push(n@));
            },
        }
        i = i + 1;
    }
    render_exec(absolute, &names)
}

} // verus!
