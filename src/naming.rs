use vstd::prelude::*;
use crate::entity::Entity;
use crate::fs::{dir_paths, entities_of, first_failure, flatten, walk_spec};
use crate::tree::{lemma_no_failure_push, read_of, scan, sub_walks, top_consistent, DirTree};

verus! {

/// The path of the entry named `name` inside the directory at `p`.
pub open spec fn child_path(p: Seq<char>, name: Seq<char>) -> Seq<char> {
    p + seq!['/'] + name
}

/// A single path component: non-empty, without a separator.
pub open spec fn plain_name(n: Seq<char>) -> bool {
    n.len() > 0 && forall|i: int| 0 <= i < n.len() ==> n[i] != '/'
}

/// `x` names a node strictly below the directory at `q`.
pub open spec fn strictly_under(x: Seq<char>, q: Seq<char>) -> bool {
    &&& x.len() > q.len() + 1
    &&& x.subrange(0, q.len() as int) == q
    &&& x[q.len() as int] == '/'
}

/// The listing of the top directory of `t`, read at path `p`, names its
/// entries by distinct plain names, and gives each the path `p/name`.
pub open spec fn listing_named(t: DirTree, p: Seq<char>) -> bool {
    t.listing is Ok ==> {
        let es = t.listing->Ok_0;
        &&& forall|k: int|
            0 <= k < es.len() ==> plain_name(#[trigger] es[k].file_name@) && es[k].path@ == child_path(p, es[k].file_name@)
        &&& forall|j: int, k: int|
            0 <= j < es.len() && 0 <= k < es.len() && j != k ==> (#[trigger] es[j].file_name@) != (#[trigger] es[k].file_name@)
    }
}

/// The path at which the walk reads the `j`-th subdirectory of `t`.
pub open spec fn sub_path(t: DirTree, j: int) -> Seq<char> {
    dir_paths(read_of(t)->Ok_0)[j]@
}

/// The first `n` subdirectories of `t`, and all below them, are consistent
/// and named as `listing_named` says, each at the path the walk reads it at.
pub open spec fn named_below(t: DirTree, n: int) -> bool
    decreases t, n,
{
    if n <= 0 || n > t.subdirs.len() {
        true
    } else {
        let d = t.subdirs[n - 1];
        &&& named_below(t, n - 1)
        &&& top_consistent(d)
        &&& listing_named(d, sub_path(t, n - 1))
        &&& named_below(d, d.subdirs.len() as int)
    }
}

/// The whole tree `t`, rooted at path `p`, is consistent and well named.
pub open spec fn well_named(t: DirTree, p: Seq<char>) -> bool {
    &&& top_consistent(t)
    &&& listing_named(t, p)
    &&& named_below(t, t.subdirs.len() as int)
}

pub open spec fn paths_distinct(s: Seq<Entity>) -> bool {
    forall|i: int, j: int| 0 <= i < s.len() && 0 <= j < s.len() && i != j ==> (#[trigger] s[i].path@) != (#[trigger] s[j].path@)
}

pub open spec fn all_under(s: Seq<Entity>, p: Seq<char>) -> bool {
    forall|i: int| 0 <= i < s.len() ==> strictly_under(#[trigger] s[i].path@, p)
}

/// Nodes in the branches of two differently named children of one
/// directory have different paths.
proof fn lemma_child_path(p: Seq<char>, a: Seq<char>)
    ensures
        child_path(p, a).len() == p.len() + 1 + a.len(),
        child_path(p, a)[p.len() as int] == '/',
        forall|i: int| 0 <= i < p.len() ==> #[trigger] child_path(p, a)[i] == p[i],
        forall|i: int| 0 <= i < a.len() ==> #[trigger] child_path(p, a)[p.len() + 1 + i] == a[i],
{
}

/// What a path at or below `p/a` holds at the positions of `p/a`.
proof fn lemma_at_or_under(p: Seq<char>, a: Seq<char>, x: Seq<char>)
    requires
        x == child_path(p, a) || strictly_under(x, child_path(p, a)),
    ensures
        x.len() >= p.len() + 1 + a.len(),
        x[p.len() as int] == '/',
        forall|i: int| 0 <= i < p.len() ==> #[trigger] x[i] == p[i],
        forall|i: int| 0 <= i < a.len() ==> #[trigger] x[p.len() + 1 + i] == a[i],
        x != child_path(p, a) ==> x.len() > p.len() + 1 + a.len() && x[p.len() + 1 + a.len() as int] == '/',
{
    let ca = child_path(p, a);
    lemma_child_path(p, a);
    if x != ca {
        assert forall|i: int| 0 <= i < ca.len() implies #[trigger] x[i] == ca[i] by {
            assert(x.subrange(0, ca.len() as int)[i] == ca[i]);
        }
        assert(x[p.len() as int] == ca[p.len() as int]);
        assert forall|i: int| 0 <= i < p.len() implies #[trigger] x[i] == p[i] by {
            assert(x[i] == ca[i]);
        }
        assert forall|i: int| 0 <= i < a.len() implies #[trigger] x[p.len() + 1 + i] == a[i] by {
            assert(x[p.len() + 1 + i] == ca[p.len() + 1 + i]);
        }
    }
}

/// Nodes in the branches of two differently named children of one
/// directory have different paths.
proof fn lemma_branches_differ(p: Seq<char>, a: Seq<char>, b: Seq<char>, x: Seq<char>, y: Seq<char>)
    requires
        plain_name(a),
        plain_name(b),
        a != b,
        x == child_path(p, a) || strictly_under(x, child_path(p, a)),
        y == child_path(p, b) || strictly_under(y, child_path(p, b)),
    ensures
        x != y,
{
    lemma_at_or_under(p, a, x);
    lemma_at_or_under(p, b, y);
    let l: int = p.len() as int + 1;
    if x == y {
        if a.len() == b.len() {
            assert forall|i: int| 0 <= i < a.len() implies a[i] == b[i] by {
                assert(x[l + i] == a[i]);
                assert(y[l + i] == b[i]);
            }
            assert(a =~= b);
        } else if a.len() < b.len() {
            assert(y[l + a.len() as int] == b[a.len() as int]);
            lemma_child_path(p, a);
        } else {
            assert(x[l + b.len() as int] == a[b.len() as int]);
            lemma_child_path(p, b);
        }
    }
}

/// A node at or below a child of the directory at `p` is below `p` itself.
proof fn lemma_under_child(p: Seq<char>, a: Seq<char>, x: Seq<char>)
    requires
        plain_name(a),
        x == child_path(p, a) || strictly_under(x, child_path(p, a)),
    ensures
        strictly_under(x, p),
{
    lemma_at_or_under(p, a, x);
    assert(x.subrange(0, p.len() as int) =~= p);
}

/// Each directory path picked from `s` is the path of one of its
/// directories, and distinct paths in `s` give distinct picks.
proof fn lemma_dir_paths(s: Seq<Entity>)
    ensures
        forall|j: int| 0 <= j < dir_paths(s).len() ==> exists|k: int| 0 <= k < s.len() && (#[trigger] dir_paths(s)[j]) == s[k].path,
        paths_distinct(s) ==> forall|i: int, j: int|
            0 <= i < dir_paths(s).len() && 0 <= j < dir_paths(s).len() && i != j ==> (#[trigger] dir_paths(s)[i])@ != (#[trigger] dir_paths(s)[j])@,
    decreases s.len(),
{
    if s.len() > 0 {
        let s0 = s.drop_last();
        lemma_dir_paths(s0);
        assert forall|j: int| 0 <= j < dir_paths(s).len() implies exists|k: int| 0 <= k < s.len() && (#[trigger] dir_paths(s)[j]) == s[k].path by {
            if j < dir_paths(s0).len() {
                let k = choose|k: int| 0 <= k < s0.len() && dir_paths(s0)[j] == s0[k].path;
                assert(s[k] == s0[k]);
            } else {
                assert(dir_paths(s)[j] == s[s.len() - 1].path);
            }
        }
        if paths_distinct(s) {
            assert(paths_distinct(s0)) by {
                assert forall|i: int, j: int| 0 <= i < s0.len() && 0 <= j < s0.len() && i != j implies (#[trigger] s0[i].path@) != (#[trigger] s0[j].path@) by {
                    assert(s[i] == s0[i] && s[j] == s0[j]);
                }
            }
            assert forall|i: int, j: int|
                0 <= i < dir_paths(s).len() && 0 <= j < dir_paths(s).len() && i != j implies (#[trigger] dir_paths(s)[i])@ != (#[trigger] dir_paths(s)[j])@ by {
                let n0 = dir_paths(s0).len();
                if i < n0 && j < n0 {
                } else if i < n0 {
                    let k = choose|k: int| 0 <= k < s0.len() && dir_paths(s0)[i] == s0[k].path;
                    assert(s[k] == s0[k]);
                    assert(s[k].path@ != s[s.len() - 1].path@);
                } else {
                    let k = choose|k: int| 0 <= k < s0.len() && dir_paths(s0)[j] == s0[k].path;
                    assert(s[k] == s0[k]);
                    assert(s[k].path@ != s[s.len() - 1].path@);
                }
            }
        }
    }
}

/// The children of a well-named directory have distinct paths, each that
/// of a plain name directly below it.
proof fn lemma_children_named(t: DirTree, p: Seq<char>)
    requires
        listing_named(t, p),
        read_of(t) is Ok,
    ensures
        paths_distinct(read_of(t)->Ok_0),
        forall|k: int| 0 <= k < read_of(t)->Ok_0.len() ==> {
            let e = #[trigger] read_of(t)->Ok_0[k];
            plain_name(e.file_name@) && e.path@ == child_path(p, e.file_name@)
        },
{
    let es = t.listing->Ok_0;
    let c = read_of(t)->Ok_0;
    assert(c == entities_of(es, t.metadata));
    assert forall|k: int| 0 <= k < c.len() implies {
        let e = #[trigger] c[k];
        plain_name(e.file_name@) && e.path@ == child_path(p, e.file_name@)
    } by {
        assert(c[k].file_name == es[k].file_name && c[k].path == es[k].path);
        assert(plain_name(es[k].file_name@));
    }
    assert forall|i: int, j: int| 0 <= i < c.len() && 0 <= j < c.len() && i != j implies (#[trigger] c[i].path@) != (#[trigger] c[j].path@) by {
        assert(c[i].file_name == es[i].file_name && c[i].path == es[i].path);
        assert(c[j].file_name == es[j].file_name && c[j].path == es[j].path);
        assert(es[i].file_name@ != es[j].file_name@);
        lemma_branches_differ(p, es[i].file_name@, es[j].file_name@, c[i].path@, c[j].path@);
    }
}

/// The path at which the walk reads a subdirectory of a well-named
/// directory is that of one of its children, returned here.
proof fn lemma_sub_path_child(t: DirTree, p: Seq<char>, j: int) -> (k: int)
    requires
        top_consistent(t),
        listing_named(t, p),
        read_of(t) is Ok,
        0 <= j < t.subdirs.len(),
    ensures
        0 <= k < read_of(t)->Ok_0.len(),
        sub_path(t, j) == read_of(t)->Ok_0[k].path@,
{
    let c = read_of(t)->Ok_0;
    lemma_dir_paths(c);
    assert(dir_paths(c)[j] == dir_paths(c)[j]);
    choose|k: int| 0 <= k < c.len() && dir_paths(c)[j] == c[k].path
}

proof fn lemma_walks_named(t: DirTree, p: Seq<char>, n: int)
    requires
        0 <= n <= t.subdirs.len(),
        top_consistent(t),
        listing_named(t, p),
        named_below(t, n),
        read_of(t) is Ok,
        first_failure(sub_walks(t, n)) is None,
    ensures
        paths_distinct(flatten(sub_walks(t, n))),
        forall|i: int| #![trigger flatten(sub_walks(t, n))[i]]
            0 <= i < flatten(sub_walks(t, n)).len() ==> exists|j: int|
                0 <= j < n && #[trigger] strictly_under(flatten(sub_walks(t, n))[i].path@, sub_path(t, j)),
    decreases t, n,
{
    if n > 0 {
        let d = t.subdirs[n - 1];
        let q = sub_path(t, n - 1);
        let s = sub_walks(t, n - 1);
        let x = walk_spec(read_of(d), sub_walks(d, d.subdirs.len() as int));
        assert(sub_walks(t, n) == s.push(x));
        assert(s.push(x).drop_last() =~= s);
        lemma_no_failure_push(s, x);
        lemma_walks_named(t, p, n - 1);
        assert(x == scan(d));
        lemma_scan_paths_unique(d, q);
        let a = flatten(s);
        let b = x->Ok_0;
        let f = flatten(sub_walks(t, n));
        assert(f == a + b);
        let c = read_of(t)->Ok_0;
        lemma_children_named(t, p);
        lemma_dir_paths(c);
        let kq = lemma_sub_path_child(t, p, n - 1);
        assert forall|i: int| #![trigger f[i]]
            0 <= i < f.len() implies exists|j: int| 0 <= j < n && #[trigger] strictly_under(f[i].path@, sub_path(t, j)) by {
            if i < a.len() {
                assert(f[i] == a[i]);
                let j = choose|j: int| 0 <= j < n - 1 && #[trigger] strictly_under(a[i].path@, sub_path(t, j));
                assert(strictly_under(f[i].path@, sub_path(t, j)));
            } else {
                assert(f[i] == b[i - a.len()]);
                assert(strictly_under(f[i].path@, sub_path(t, n - 1)));
            }
        }
        assert forall|i: int, k: int| 0 <= i < f.len() && 0 <= k < f.len() && i != k implies (#[trigger] f[i].path@) != (#[trigger] f[k].path@) by {
            if i < a.len() && k < a.len() {
                assert(f[i] == a[i] && f[k] == a[k]);
            } else if i >= a.len() && k >= a.len() {
                assert(f[i] == b[i - a.len()] && f[k] == b[k - a.len()]);
            } else {
                let (ia, kb) = if i < a.len() { (i, k - a.len()) } else { (k, i - a.len()) };
                assert(f[i].path@ != f[k].path@) by {
                    let j = choose|j: int| 0 <= j < n - 1 && #[trigger] strictly_under(a[ia].path@, sub_path(t, j));
                    let kj = lemma_sub_path_child(t, p, j);
                    assert(dir_paths(c)[j]@ != dir_paths(c)[n - 1]@);
                    assert(c[kj].file_name@ != c[kq].file_name@);
                    lemma_branches_differ(p, c[kj].file_name@, c[kq].file_name@, a[ia].path@, b[kb].path@);
                    if i < a.len() {
                        assert(f[i] == a[ia] && f[k] == b[kb]);
                    } else {
                        assert(f[k] == a[ia] && f[i] == b[kb]);
                    }
                }
            }
        }
    }
}

/// In a tree where every entry's path is its directory's path, a separator
/// and its own name, and the names within each directory are distinct
/// plain names, a successful walk returns every path at most once, each
/// strictly below the root.
pub proof fn lemma_scan_paths_unique(t: DirTree, p: Seq<char>)
    requires
        well_named(t, p),
        scan(t) is Ok,
    ensures
        paths_distinct(scan(t)->Ok_0),
        all_under(scan(t)->Ok_0, p),
    decreases t, t.subdirs.len() + 1,
{
    let c = read_of(t)->Ok_0;
    let n = t.subdirs.len() as int;
    lemma_walks_named(t, p, n);
    lemma_children_named(t, p);
    lemma_dir_paths(c);
    let f = flatten(sub_walks(t, n));
    let v = scan(t)->Ok_0;
    assert(v == c + f);
    assert forall|i: int| 0 <= i < v.len() implies strictly_under(#[trigger] v[i].path@, p) by {
        if i < c.len() {
            assert(v[i] == c[i]);
            lemma_under_child(p, c[i].file_name@, c[i].path@);
        } else {
            assert(v[i] == f[i - c.len()]);
            let j = choose|j: int| 0 <= j < n && #[trigger] strictly_under(f[i - c.len()].path@, sub_path(t, j));
            let kj = lemma_sub_path_child(t, p, j);
            lemma_under_child(p, c[kj].file_name@, v[i].path@);
        }
    }
    assert forall|i: int, k: int| 0 <= i < v.len() && 0 <= k < v.len() && i != k implies (#[trigger] v[i].path@) != (#[trigger] v[k].path@) by {
        if i < c.len() && k < c.len() {
            assert(v[i] == c[i] && v[k] == c[k]);
        } else if i >= c.len() && k >= c.len() {
            assert(v[i] == f[i - c.len()] && v[k] == f[k - c.len()]);
        } else {
            let (ic, kf) = if i < c.len() { (i, k - c.len()) } else { (k, i - c.len()) };
            assert(v[i].path@ != v[k].path@) by {
                let j = choose|j: int| 0 <= j < n && #[trigger] strictly_under(f[kf].path@, sub_path(t, j));
                let kj = lemma_sub_path_child(t, p, j);
                if c[ic].file_name@ != c[kj].file_name@ {
                    lemma_branches_differ(p, c[ic].file_name@, c[kj].file_name@, c[ic].path@, f[kf].path@);
                } else {
                    lemma_child_path(p, c[ic].file_name@);
                }
                if i < c.len() {
                    assert(v[i] == c[ic] && v[k] == f[kf]);
                } else {
                    assert(v[k] == c[ic] && v[i] == f[kf]);
                }
            }
        }
    }
}

} // verus!
