//! Source files and the module roots that must contain them. A path is the list
//! of its components.
use crate::diagnostic::{diag, diagnosed, Diagnostic, DiagnosticView};
use crate::text::{chars_of, joined, same_text, texts};
use vstd::prelude::*;

verus! {

/// The components of a list of paths.
pub open spec fn path_views(v: Seq<Vec<String>>) -> Seq<Seq<Seq<char>>> {
    v.map_values(|p: Vec<String>| texts(p@))
}

/// `path` is `root` or lies below it.
pub open spec fn inside(path: Seq<Seq<char>>, root: Seq<Seq<char>>) -> bool {
    root.len() <= path.len() && path.take(root.len() as int) == root
}

/// Whether `path` is `root` or lies below it.
pub fn is_inside(path: &Vec<String>, root: &Vec<String>) -> (r: bool)
    ensures
        r == inside(texts(path@), texts(root@)),
{
    if root.len() > path.len() {
        return false;
    }
    let mut i: usize = 0;
    while i < root.len()
        invariant
            i <= root.len() <= path.len(),
            forall|k: int| 0 <= k < i ==> path@[k]@ == root@[k]@,
        decreases root.len() - i,
    {
        if !same_text(path[i].as_str(), root[i].as_str()) {
            proof {
                assert(texts(path@).take(root.len() as int)[i as int] == path@[i as int]@);
                assert(texts(root@)[i as int] == root@[i as int]@);
            }
            return false;
        }
        i += 1;
    }
    assert(texts(path@).take(root.len() as int) =~= texts(root@));
    true
}

/// Root `k` is the one that counts for `path`: it contains the path, none that
/// does is longer, and of the longest it is the last.
pub open spec fn is_chosen_root(
    roots: Seq<Seq<Seq<char>>>,
    path: Seq<Seq<char>>,
    k: int,
) -> bool {
    &&& 0 <= k < roots.len()
    &&& inside(path, roots[k])
    &&& forall|j: int|
        0 <= j < roots.len() && inside(path, #[trigger] roots[j]) ==> roots[j].len()
            <= roots[k].len() && (j > k ==> roots[j].len() < roots[k].len())
}

/// The innermost root that contains `path`.
pub fn choose_root(roots: &Vec<Vec<String>>, path: &Vec<String>) -> (r: Option<usize>)
    ensures
        match r {
            Some(k) => is_chosen_root(path_views(roots@), texts(path@), k as int),
            None => forall|j: int|
                0 <= j < roots.len() ==> !inside(texts(path@), #[trigger] path_views(roots@)[j]),
        },
{
    let ghost views = path_views(roots@);
    let ghost p = texts(path@);
    let mut best: Option<usize> = None;
    let mut i: usize = 0;
    while i < roots.len()
        invariant
            i <= roots.len(),
            views == path_views(roots@),
            p == texts(path@),
            match best {
                Some(k) => k < i && inside(p, views[k as int]) && forall|j: int|
                    0 <= j < i && inside(p, #[trigger] views[j]) ==> views[j].len()
                        <= views[k as int].len() && (j > k ==> views[j].len()
                        < views[k as int].len()),
                None => forall|j: int| 0 <= j < i ==> !inside(p, #[trigger] views[j]),
            },
        decreases roots.len() - i,
    {
        assert(views[i as int] == texts(roots@[i as int]@));
        if is_inside(path, &roots[i]) {
            match best {
                None => {
                    best = Some(i);
                },
                Some(k) => {
                    assert(views[k as int] == texts(roots@[k as int]@));
                    if roots[k].len() <= roots[i].len() {
                        best = Some(i);
                    }
                },
            }
        }
        i += 1;
    }
    best
}

/// What is returned for a file that is required below `root`: `resolved` is
/// where it was found.
pub open spec fn required_file(
    root: Seq<Seq<char>>,
    resolved: Option<Seq<Seq<char>>>,
    missing: DiagnosticView,
    outside: DiagnosticView,
) -> Option<DiagnosticView> {
    match resolved {
        None => Some(missing),
        Some(path) => if inside(path, root) {
            None
        } else {
            Some(outside)
        },
    }
}

/// The components of an optional path.
pub open spec fn path_option(o: Option<Vec<String>>) -> Option<Seq<Seq<char>>> {
    match o {
        Some(v) => Some(texts(v@)),
        None => None,
    }
}

/// Checks an allowlisted file: it was found, and below `root`.
pub fn bounded_file(
    root: &Vec<String>,
    resolved: Option<Vec<String>>,
    relative: &str,
    code: &str,
) -> (r: Result<Vec<String>, Diagnostic>)
    ensures
        match r {
            Ok(path) => resolved == Some(path) && inside(texts(path@), texts(root@)),
            Err(d) => required_file(
                texts(root@),
                path_option(resolved),
                diagnosed(
                    code@ + "_NOT_FOUND"@,
                    "required allowlisted source file was not found"@,
                    relative@,
                ),
                diagnosed(
                    code@ + "_OUTSIDE_ROOT"@,
                    "required source file resolves outside module_roots"@,
                    relative@,
                ),
            ) == Some(d@),
        },
{
    match resolved {
        None => Err(
            diag(
                joined(code, "_NOT_FOUND").as_str(),
                "required allowlisted source file was not found",
                relative,
            ),
        ),
        Some(path) => if is_inside(&path, root) {
            Ok(path)
        } else {
            Err(
                diag(
                    joined(code, "_OUTSIDE_ROOT").as_str(),
                    "required source file resolves outside module_roots",
                    relative,
                ),
            )
        },
    }
}

/// Checks a local import: it was found, and below `root`.
pub fn resolve_checkin_import(
    root: &Vec<String>,
    resolved: Option<Vec<String>>,
    relative: &str,
) -> (r: Result<Vec<String>, Diagnostic>)
    ensures
        match r {
            Ok(path) => resolved == Some(path) && inside(texts(path@), texts(root@)),
            Err(d) => required_file(
                texts(root@),
                path_option(resolved),
                diagnosed(
                    "IMPORT_UNRESOLVED"@,
                    "required local import was not found"@,
                    relative@,
                ),
                diagnosed(
                    "IMPORT_OUTSIDE_ROOT"@,
                    "resolved import is outside module_roots"@,
                    relative@,
                ),
            ) == Some(d@),
        },
{
    match resolved {
        None => Err(diag("IMPORT_UNRESOLVED", "required local import was not found", relative)),
        Some(path) => if is_inside(&path, root) {
            Ok(path)
        } else {
            Err(diag("IMPORT_OUTSIDE_ROOT", "resolved import is outside module_roots", relative))
        },
    }
}

/// What is returned for the file of an icon: it lies in the asset root itself,
/// not below it. `shown` is how the found path is written.
pub open spec fn asset_file_error(
    root: Seq<Seq<char>>,
    resolved: Option<Seq<Seq<char>>>,
    basename: Seq<char>,
    shown: Seq<char>,
) -> Option<DiagnosticView> {
    match resolved {
        None => Some(
            diagnosed(
                "ASSET_NOT_FOUND"@,
                "local SVG matching the icon URL basename was not found"@,
                basename,
            ),
        ),
        Some(path) => if path.len() > 0 && path.drop_last() == root {
            None
        } else {
            Some(
                diagnosed(
                    "ASSET_OUTSIDE_ROOT"@,
                    "resolved SVG asset is outside the allowlisted asset root"@,
                    shown,
                ),
            )
        },
    }
}

/// Checks the file of an icon.
pub fn check_asset_file(
    root: &Vec<String>,
    resolved: &Option<Vec<String>>,
    basename: &str,
    shown: &str,
) -> (r: Result<(), Diagnostic>)
    ensures
        match r {
            Ok(_) => asset_file_error(texts(root@), path_option(*resolved), basename@, shown@)
                is None,
            Err(d) => asset_file_error(texts(root@), path_option(*resolved), basename@, shown@)
                == Some(d@),
        },
{
    match resolved {
        None => Err(
            diag(
                "ASSET_NOT_FOUND",
                "local SVG matching the icon URL basename was not found",
                basename,
            ),
        ),
        Some(path) => {
            let ghost p = texts(path@);
            let ghost t = texts(root@);
            if path.len() > 0 && path.len() - 1 == root.len() && is_inside(path, root) {
                assert(p.drop_last() =~= p.take(t.len() as int));
                Ok(())
            } else {
                proof {
                    if p.len() > 0 && p.drop_last() == t {
                        assert(p.len() == t.len() + 1);
                        assert(p.take(t.len() as int) =~= p.drop_last());
                    }
                }
                Err(
                    diag(
                        "ASSET_OUTSIDE_ROOT",
                        "resolved SVG asset is outside the allowlisted asset root",
                        shown,
                    ),
                )
            }
        },
    }
}

/// `a` comes before `b` in the order of the code points.
pub open spec fn text_less(a: Seq<char>, b: Seq<char>) -> bool
    decreases a.len(),
{
    if b.len() == 0 {
        false
    } else if a.len() == 0 {
        true
    } else {
        a[0] < b[0] || (a[0] == b[0] && text_less(a.skip(1), b.skip(1)))
    }
}

/// `a` comes before `b`, component by component.
pub open spec fn path_less(a: Seq<Seq<char>>, b: Seq<Seq<char>>) -> bool
    decreases a.len(),
{
    if b.len() == 0 {
        false
    } else if a.len() == 0 {
        true
    } else {
        text_less(a[0], b[0]) || (a[0] == b[0] && path_less(a.skip(1), b.skip(1)))
    }
}

pub proof fn lemma_text_total(a: Seq<char>, b: Seq<char>)
    ensures
        text_less(a, b) || text_less(b, a) || a == b,
        !text_less(a, a),
        text_less(a, b) ==> !text_less(b, a) && a != b,
    decreases a.len() + b.len(),
{
    if a.len() > 0 {
        lemma_text_irreflexive(a);
    }
    if a.len() > 0 && b.len() > 0 {
        lemma_text_total(a.skip(1), b.skip(1));
        if a[0] == b[0] && a.skip(1) == b.skip(1) {
            assert(a =~= seq![a[0]] + a.skip(1));
            assert(b =~= seq![b[0]] + b.skip(1));
        }
    } else if a.len() == 0 && b.len() == 0 {
        assert(a =~= b);
    }
}

proof fn lemma_text_irreflexive(a: Seq<char>)
    ensures
        !text_less(a, a),
    decreases a.len(),
{
    if a.len() > 0 {
        lemma_text_irreflexive(a.skip(1));
    }
}

pub proof fn lemma_text_transitive(a: Seq<char>, b: Seq<char>, c: Seq<char>)
    requires
        text_less(a, b),
        text_less(b, c),
    ensures
        text_less(a, c),
    decreases a.len(),
{
    if a.len() > 0 && b.len() > 0 && c.len() > 0 && a[0] == b[0] && b[0] == c[0] {
        lemma_text_transitive(a.skip(1), b.skip(1), c.skip(1));
    }
}

pub proof fn lemma_path_total(a: Seq<Seq<char>>, b: Seq<Seq<char>>)
    ensures
        path_less(a, b) || path_less(b, a) || a == b,
        path_less(a, b) ==> !path_less(b, a) && a != b,
    decreases a.len() + b.len(),
{
    if a.len() > 0 && b.len() > 0 {
        lemma_text_total(a[0], b[0]);
        lemma_path_total(a.skip(1), b.skip(1));
        if a[0] == b[0] && a.skip(1) == b.skip(1) {
            assert(a =~= seq![a[0]] + a.skip(1));
            assert(b =~= seq![b[0]] + b.skip(1));
        }
    } else if a.len() == 0 && b.len() == 0 {
        assert(a =~= b);
    }
}

pub proof fn lemma_path_transitive(a: Seq<Seq<char>>, b: Seq<Seq<char>>, c: Seq<Seq<char>>)
    requires
        path_less(a, b),
        path_less(b, c),
    ensures
        path_less(a, c),
    decreases a.len(),
{
    if a.len() > 0 && b.len() > 0 && c.len() > 0 {
        if text_less(a[0], b[0]) && text_less(b[0], c[0]) {
            lemma_text_transitive(a[0], b[0], c[0]);
        } else if a[0] == b[0] && b[0] == c[0] {
            lemma_path_transitive(a.skip(1), b.skip(1), c.skip(1));
        }
    }
}

/// How two texts or paths stand to each other.
#[derive(Debug, Clone, Copy, PartialEq, Eq, Structural)]
pub enum Side {
    Before,
    Same,
    After,
}

fn text_side(a: &str, b: &str) -> (r: Side)
    ensures
        r == Side::Before <==> text_less(a@, b@),
        r == Side::Same <==> a@ == b@,
{
    let x = chars_of(a);
    let y = chars_of(b);
    let mut i: usize = 0;
    proof {
        lemma_text_total(x@, y@);
    }
    assert(x@.skip(0) =~= x@);
    assert(y@.skip(0) =~= y@);
    while i < x.len() && i < y.len()
        invariant
            i <= x.len(),
            i <= y.len(),
            x@ == a@,
            y@ == b@,
            text_less(x@, y@) == text_less(x@.skip(i as int), y@.skip(i as int)),
            (x@ == y@) == (x@.skip(i as int) == y@.skip(i as int)),
        decreases x.len() - i,
    {
        let ghost s = x@.skip(i as int);
        let ghost t = y@.skip(i as int);
        proof {
            assert(s.skip(1) =~= x@.skip(i + 1));
            assert(t.skip(1) =~= y@.skip(i + 1));
            assert(s[0] == x@[i as int] && t[0] == y@[i as int]);
            if s[0] == t[0] && s.skip(1) == t.skip(1) {
                assert(s =~= seq![s[0]] + s.skip(1));
                assert(t =~= seq![t[0]] + t.skip(1));
            }
        }
        if x[i] < y[i] {
            return Side::Before;
        }
        if x[i] != y[i] {
            return Side::After;
        }
        i += 1;
    }
    let ghost s = x@.skip(i as int);
    let ghost t = y@.skip(i as int);
    if i < y.len() {
        Side::Before
    } else if i < x.len() {
        assert(s.len() != t.len());
        Side::After
    } else {
        assert(s =~= t);
        Side::Same
    }
}

fn path_side(a: &Vec<String>, b: &Vec<String>) -> (r: Side)
    ensures
        r == Side::Before <==> path_less(texts(a@), texts(b@)),
        r == Side::Same <==> texts(a@) == texts(b@),
{
    let ghost x = texts(a@);
    let ghost y = texts(b@);
    let mut i: usize = 0;
    assert(x.skip(0) =~= x);
    assert(y.skip(0) =~= y);
    while i < a.len() && i < b.len()
        invariant
            i <= a.len(),
            i <= b.len(),
            x == texts(a@),
            y == texts(b@),
            path_less(x, y) == path_less(x.skip(i as int), y.skip(i as int)),
            (x == y) == (x.skip(i as int) == y.skip(i as int)),
        decreases a.len() - i,
    {
        let ghost s = x.skip(i as int);
        let ghost t = y.skip(i as int);
        proof {
            assert(s.skip(1) =~= x.skip(i + 1));
            assert(t.skip(1) =~= y.skip(i + 1));
            assert(s[0] == a@[i as int]@ && t[0] == b@[i as int]@);
            lemma_text_total(s[0], t[0]);
            if s[0] == t[0] && s.skip(1) == t.skip(1) {
                assert(s =~= seq![s[0]] + s.skip(1));
                assert(t =~= seq![t[0]] + t.skip(1));
            }
        }
        match text_side(a[i].as_str(), b[i].as_str()) {
            Side::Before => {
                return Side::Before;
            },
            Side::After => {
                return Side::After;
            },
            Side::Same => {},
        }
        i += 1;
    }
    let ghost s = x.skip(i as int);
    let ghost t = y.skip(i as int);
    if i < b.len() {
        Side::Before
    } else if i < a.len() {
        assert(s.len() != t.len());
        Side::After
    } else {
        assert(s =~= t);
        Side::Same
    }
}

/// Every path comes before all that stand behind it; so none stands twice.
pub open spec fn strictly_sorted(v: Seq<Seq<Seq<char>>>) -> bool {
    forall|i: int, j: int| 0 <= i < j < v.len() ==> path_less(#[trigger] v[i], #[trigger] v[j])
}

/// The same paths, whatever their order and number.
pub open spec fn same_paths(a: Seq<Seq<Seq<char>>>, b: Seq<Seq<Seq<char>>>) -> bool {
    forall|p: Seq<Seq<char>>| a.contains(p) <==> #[trigger] b.contains(p)
}

/// Puts `path` into a sorted list, unless it is in it.
fn insert_path(out: &mut Vec<Vec<String>>, path: Vec<String>)
    requires
        strictly_sorted(path_views(old(out)@)),
    ensures
        strictly_sorted(path_views(final(out)@)),
        forall|p: Seq<Seq<char>>|
            #[trigger] path_views(final(out)@).contains(p) <==> path_views(old(out)@).contains(p)
                || p == texts(path@),
{
    let ghost views = path_views(out@);
    let ghost new = texts(path@);
    let mut at: usize = 0;
    while at < out.len()
        invariant_except_break
            at <= out.len(),
            views == path_views(out@),
            new == texts(path@),
            strictly_sorted(views),
            forall|k: int| 0 <= k < at ==> path_less(#[trigger] views[k], new),
        ensures
            at <= out.len(),
            forall|k: int| 0 <= k < at ==> path_less(#[trigger] views[k], new),
            at < out.len() ==> views[at as int] != new && !path_less(views[at as int], new),
            *out == *old(out),
        decreases out.len() - at,
    {
        assert(views[at as int] == texts(out@[at as int]@));
        match path_side(&out[at], &path) {
            Side::Before => {},
            Side::Same => {
                proof {
                    assert(views[at as int] == new);
                    assert(views.contains(new));
                }
                return;
            },
            Side::After => {
                break;
            },
        }
        at += 1;
    }
    out.insert(at, path);
    proof {
        let after = path_views(out@);
        assert(after =~= views.insert(at as int, new));
        if at < views.len() {
            lemma_path_total(views[at as int], new);
            assert forall|k: int| at < k < views.len() implies path_less(
                new,
                #[trigger] views[k],
            ) by {
                lemma_path_transitive(new, views[at as int], views[k]);
            }
        }
        assert forall|i: int, j: int| 0 <= i < j < after.len() implies path_less(
            #[trigger] after[i],
            #[trigger] after[j],
        ) by {
            let a = if i <= at {
                i
            } else {
                i - 1
            };
            let b = if j <= at {
                j
            } else {
                j - 1
            };
            if i == at {
                assert(after[j] == views[b]);
            } else if j == at {
                assert(after[i] == views[a]);
            } else {
                assert(after[i] == views[a] && after[j] == views[b]);
            }
        }
        assert forall|p: Seq<Seq<char>>| #[trigger] after.contains(p) <==> views.contains(p) || p
            == new by {
            if views.contains(p) {
                let k = choose|k: int| 0 <= k < views.len() && views[k] == p;
                if k < at {
                    assert(after[k] == p);
                } else {
                    assert(after[k + 1] == p);
                }
            }
            if p == new {
                assert(after[at as int] == p);
            }
            if after.contains(p) {
                let k = choose|k: int| 0 <= k < after.len() && after[k] == p;
                if k < at {
                    assert(views[k] == p);
                } else if k > at {
                    assert(views[k - 1] == p);
                }
            }
        }
    }
}

/// The files in order, each once.
pub fn sorted_files(files: Vec<Vec<String>>) -> (r: Vec<Vec<String>>)
    ensures
        strictly_sorted(path_views(r@)),
        same_paths(path_views(r@), path_views(files@)),
{
    let ghost all = path_views(files@);
    let ghost given = files@;
    let mut rest = files;
    let mut out: Vec<Vec<String>> = Vec::new();
    while rest.len() > 0
        invariant
            strictly_sorted(path_views(out@)),
            all == path_views(given),
            rest@ == given.take(rest.len() as int),
            rest.len() <= given.len(),
            forall|p: Seq<Seq<char>>|
                #[trigger] path_views(out@).contains(p) <==> all.skip(rest.len() as int).contains(
                    p,
                ),
        decreases rest.len(),
    {
        let ghost n = (rest.len() - 1) as int;
        let ghost before = path_views(out@);
        let path = rest.pop().unwrap();
        assert(path == given[n]);
        assert(rest@ =~= given.take(n));
        insert_path(&mut out, path);
        proof {
            let tail = all.skip(n + 1);
            let more = all.skip(n);
            assert(more =~= seq![texts(path@)] + tail);
            assert forall|p: Seq<Seq<char>>| #[trigger] path_views(out@).contains(p)
                <==> more.contains(p) by {
                if tail.contains(p) {
                    let k = choose|k: int| 0 <= k < tail.len() && tail[k] == p;
                    assert(more[k + 1] == p);
                }
                if p == texts(path@) {
                    assert(more[0] == p);
                }
                if more.contains(p) {
                    let k = choose|k: int| 0 <= k < more.len() && more[k] == p;
                    if k > 0 {
                        assert(tail[k - 1] == p);
                    }
                }
                assert(path_views(out@).contains(p) <==> before.contains(p) || p == texts(path@));
            }
        }
    }
    assert(all.skip(0) =~= all);
    out
}

} // verus!
