use vstd::prelude::*;
use crate::entity::{DirEntry, Entity, IoError, Metadata};
use crate::fs::{dir_paths, entities_of, first_failure, first_failure_from, flatten, read_dir_spec, walk_spec};

verus! {

/// A snapshot of a directory tree as a walk observes it: the outcome of
/// listing the directory, the outcome of the metadata lookup of each listed
/// entry, and the snapshot of each subdirectory, in the order in which the
/// walk descends into them.
pub struct DirTree {
    pub listing: Result<Seq<DirEntry>, IoError>,
    pub metadata: Seq<Result<Metadata, IoError>>,
    pub subdirs: Seq<DirTree>,
}

/// The outcome of reading the top directory of `t` alone.
pub open spec fn read_of(t: DirTree) -> Result<Seq<Entity>, IoError> {
    read_dir_spec(t.listing, t.metadata)
}

/// The top directory of `t` is consistent with what the walk asks for: one
/// metadata outcome per listed entry, one subdirectory snapshot per
/// directory among the children.
pub open spec fn top_consistent(t: DirTree) -> bool {
    &&& t.listing is Ok ==> t.metadata.len() == t.listing->Ok_0.len()
    &&& read_of(t) is Ok ==> t.subdirs.len() == dir_paths(read_of(t)->Ok_0).len()
}

/// The walks of the first `n` subdirectories of `t`.
pub open spec fn sub_walks(t: DirTree, n: int) -> Seq<Result<Seq<Entity>, IoError>>
    decreases t, n,
{
    if n <= 0 || n > t.subdirs.len() {
        Seq::empty()
    } else {
        let d = t.subdirs[n - 1];
        sub_walks(t, n - 1).push(walk_spec(read_of(d), sub_walks(d, d.subdirs.len() as int)))
    }
}

/// The outcome of walking the whole tree `t`.
pub open spec fn scan(t: DirTree) -> Result<Seq<Entity>, IoError> {
    walk_spec(read_of(t), sub_walks(t, t.subdirs.len() as int))
}

/// The number of entries listed directly in the top directory of `t`.
pub open spec fn listed(t: DirTree) -> nat {
    match t.listing {
        Ok(es) => es.len(),
        Err(_) => 0,
    }
}

/// The number of nodes listed anywhere under the first `n` subdirectories
/// of `t`.
pub open spec fn nodes_below(t: DirTree, n: int) -> nat
    decreases t, n,
{
    if n <= 0 || n > t.subdirs.len() {
        0
    } else {
        let d = t.subdirs[n - 1];
        nodes_below(t, n - 1) + listed(d) + nodes_below(d, d.subdirs.len() as int)
    }
}

/// The number of nodes in `t` other than its root.
pub open spec fn node_count(t: DirTree) -> nat {
    listed(t) + nodes_below(t, t.subdirs.len() as int)
}

/// Whether some read under the first `n` subdirectories of `t` fails.
pub open spec fn fails_below(t: DirTree, n: int) -> bool
    decreases t, n,
{
    if n <= 0 || n > t.subdirs.len() {
        false
    } else {
        let d = t.subdirs[n - 1];
        fails_below(t, n - 1) || read_of(d) is Err || fails_below(d, d.subdirs.len() as int)
    }
}

/// Whether some directory read anywhere in `t` fails: its listing, or the
/// metadata lookup of one of its entries.
pub open spec fn has_failure(t: DirTree) -> bool {
    read_of(t) is Err || fails_below(t, t.subdirs.len() as int)
}

proof fn lemma_no_failure_from<T>(s: Seq<Result<T, IoError>>, i: int)
    requires
        0 <= i <= s.len(),
    ensures
        (first_failure_from(s, i) is None) == (forall|k: int| i <= k < s.len() ==> (#[trigger] s[k]) is Ok),
    decreases s.len() - i,
{
    if i < s.len() {
        lemma_no_failure_from(s, i + 1);
    }
}

pub(crate) proof fn lemma_no_failure_push<T>(s: Seq<Result<T, IoError>>, x: Result<T, IoError>)
    ensures
        (first_failure(s.push(x)) is None) == (first_failure(s) is None && x is Ok),
{
    lemma_no_failure_from(s, 0);
    lemma_no_failure_from(s.push(x), 0);
    if first_failure(s) is None && x is Ok {
        assert forall|k: int| 0 <= k < s.push(x).len() implies (#[trigger] s.push(x)[k]) is Ok by {
            if k < s.len() {
                assert(s[k] is Ok);
            }
        }
    }
    if first_failure(s.push(x)) is None {
        assert(s.push(x)[s.len() as int] is Ok);
        assert forall|k: int| 0 <= k < s.len() implies (#[trigger] s[k]) is Ok by {
            assert(s.push(x)[k] is Ok);
        }
    }
}

proof fn lemma_sub_walks(t: DirTree, n: int)
    requires
        0 <= n <= t.subdirs.len(),
    ensures
        (first_failure(sub_walks(t, n)) is None) == !fails_below(t, n),
        first_failure(sub_walks(t, n)) is None ==> flatten(sub_walks(t, n)).len() == nodes_below(t, n),
    decreases t, n,
{
    if n > 0 {
        let d = t.subdirs[n - 1];
        lemma_sub_walks(t, n - 1);
        lemma_sub_walks(d, d.subdirs.len() as int);
        let s = sub_walks(t, n - 1);
        let x = walk_spec(read_of(d), sub_walks(d, d.subdirs.len() as int));
        lemma_no_failure_push(s, x);
        assert(sub_walks(t, n) == s.push(x));
        assert(s.push(x).drop_last() =~= s);
        if read_of(d) is Ok {
            assert(read_of(d)->Ok_0.len() == listed(d));
        }
    }
}

/// A walk that succeeds returns exactly one entity per node of the tree
/// other than the root: every file and directory at every depth.
pub proof fn lemma_scan_counts_every_node(t: DirTree)
    requires
        scan(t) is Ok,
    ensures
        scan(t)->Ok_0.len() == node_count(t),
{
    lemma_sub_walks(t, t.subdirs.len() as int);
    assert(read_of(t)->Ok_0.len() == listed(t));
}

/// A walk fails exactly when some read in the tree fails, however far from
/// it the rest of the tree lies; a failed walk carries no entities.
pub proof fn lemma_scan_fails_iff_any_read_fails(t: DirTree)
    ensures
        scan(t) is Err <==> has_failure(t),
{
    lemma_sub_walks(t, t.subdirs.len() as int);
}

/// Walking a directory with no children succeeds with no entities.
pub proof fn lemma_empty_dir(t: DirTree)
    requires
        t.listing == Ok::<Seq<DirEntry>, IoError>(Seq::empty()),
        top_consistent(t),
    ensures
        scan(t) == Ok::<Seq<Entity>, IoError>(Seq::empty()),
{
    assert(t.metadata.len() == 0);
    assert(entities_of(Seq::empty(), t.metadata) =~= Seq::empty());
    assert(read_of(t) == Ok::<Seq<Entity>, IoError>(Seq::empty()));
    assert(dir_paths(Seq::<Entity>::empty()).len() == 0);
    assert(flatten(sub_walks(t, 0)) =~= Seq::empty());
    assert(Seq::<Entity>::empty() + Seq::<Entity>::empty() =~= Seq::empty());
}

/// A walk whose root cannot be listed fails with that very error and
/// nothing else: a root that does not exist gives a not-found error.
pub proof fn lemma_unlistable_root(t: DirTree, e: IoError)
    requires
        t.listing == Err::<Seq<DirEntry>, IoError>(e),
    ensures
        scan(t) == Err::<Seq<Entity>, IoError>(e),
{
}

/// Walking the same unchanged tree twice gives equal outcomes.
pub proof fn lemma_rescan_is_equal(t1: DirTree, t2: DirTree)
    requires
        t1 == t2,
    ensures
        scan(t1) == scan(t2),
{
}

} // verus!
