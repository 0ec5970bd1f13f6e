//! The copy planner: walks each source, classifies entries, and builds
//! the destination-keyed plan. Traversal is cycle-safe: a directory
//! whose canonical identity has been seen is never walked again, so no
//! two planned directory creations share a canonical identity.

use vstd::prelude::*;
use crate::path::{FsPath, PathV, path_eq, display_path, display_of};
use crate::fsmodel::{FsSnapshot, FsEntry, FileKind, has_entry, entry_at, is_child_of, max_parts,
    lemma_max_parts};
use crate::plan::{Plan, WorkItem, Action, ItemV};
use crate::flags::{CommandFlags, Context};
use crate::cancel::CancelToken;
use crate::resolve::{dereference_path, link_free, normalize, walk_clean, lemma_link_free_walk_clean};
use crate::strutil::{dv, str_eq, str_starts_with, concat3, is_prefix_of};

verus! {

/// First index of `top` in the argument list from `i` on, or zero: the
/// position reported with every error, so the hosting shell can point
/// at the argument that caused it.
pub open spec fn arg_pos_spec(args: Seq<Seq<char>>, top: Seq<char>, i: int) -> int
    decreases args.len() - i,
{
    if i < 0 || i >= args.len() {
        0
    } else if args[i] == top {
        i
    } else {
        arg_pos_spec(args, top, i + 1)
    }
}

/// Decides whether `parent`'s components are a prefix of `src`'s.
#[verifier::loop_isolation(false)]
pub fn path_prefix_exec(parent: &FsPath, src: &FsPath) -> (r: bool)
    ensures
        r == dv(parent.parts@).is_prefix_of(dv(src.parts@)),
{
    let plen = parent.parts.len();
    if plen > src.parts.len() {
        return false;
    }
    let mut q: usize = 0;
    while q < plen
        invariant
            plen == parent.parts@.len(),
            q <= plen,
            plen <= src.parts@.len(),
            forall|w: int| 0 <= w < q ==> dv(src.parts@)[w] == dv(parent.parts@)[w],
        decreases plen - q,
    {
        if !str_eq(src.parts[q].as_str(), parent.parts[q].as_str()) {
            proof {
                assert(dv(src.parts@)[q as int] != dv(parent.parts@)[q as int]);
                if dv(parent.parts@).is_prefix_of(dv(src.parts@)) {
                    assert(dv(src.parts@).take(plen as int)[q as int] == dv(src.parts@)[q as int]);
                    assert(false);
                }
            }
            return false;
        }
        q += 1;
    }
    proof {
        assert(dv(parent.parts@) =~= dv(src.parts@).take(dv(parent.parts@).len() as int));
    }
    true
}

/// Finds the position of `top` among the original arguments.
#[verifier::loop_isolation(false)]
pub fn arg_position(args: &Vec<String>, top: &str) -> (r: usize)
    ensures
        r as int == arg_pos_spec(dv(args@), top@, 0),
{
    let n = args.len();
    let mut i: usize = 0;
    while i < n
        invariant
            n == args@.len(),
            i <= n,
            arg_pos_spec(dv(args@), top@, 0) == arg_pos_spec(dv(args@), top@, i as int),
        decreases n - i,
    {
        proof {
            assert(dv(args@)[i as int] == args@[i as int]@);
        }
        if str_eq(args[i].as_str(), top) {
            return i;
        }
        i += 1;
    }
    0
}

/// Where an entry is copied to: into an existing destination directory
/// the entry keeps its place relative to the traversal root (or its
/// name, for the root itself; or its own path when it cannot be made
/// relative); onto anything else, the literal destination.
pub open spec fn resolve_dest_spec(
    fs: Seq<FsEntry>,
    dest: PathV,
    parent: PathV,
    src: PathV,
) -> PathV {
    if has_entry(fs, dest) && entry_at(fs, dest).kind is Directory {
        if src == parent {
            (dest.0, dest.1.push(src.1.last()))
        } else if src.0 == parent.0 && parent.1.is_prefix_of(src.1) {
            (dest.0, dest.1 + src.1.skip(parent.1.len() as int))
        } else {
            src
        }
    } else {
        dest
    }
}

/// The canonical identity the snapshot records for path `p`.
pub open spec fn canon_of(fs: Seq<FsEntry>, p: PathV) -> PathV {
    entry_at(fs, p).canon.pv()
}

/// A visited canonical identity.
pub open spec fn visited_has(vis: Seq<FsPath>, p: PathV) -> bool {
    exists|i: int| 0 <= i < vis.len() && vis[i].pv() == p
}

/// A second source is being copied onto a destination that is not an
/// existing directory.
pub open spec fn dest_conflict(fs: Seq<FsEntry>, dest: PathV, planned: int) -> bool {
    planned > 0 && !(has_entry(fs, dest) && entry_at(fs, dest).kind is Directory)
}

/// Source and destination resolve to the same canonical identity.
pub open spec fn same_file(fs: Seq<FsEntry>, dest: PathV, src: PathV) -> bool {
    has_entry(fs, dest) && canon_of(fs, dest) == canon_of(fs, src)
}

/// The snapshot shows `p` as a symbolic link.
pub open spec fn is_link_entry(fsv: Seq<FsEntry>, p: PathV) -> bool {
    has_entry(fsv, p) && entry_at(fsv, p).kind is Symlink
}

/// The snapshot shows `p` as a directory.
pub open spec fn is_dir_entry(fsv: Seq<FsEntry>, p: PathV) -> bool {
    has_entry(fsv, p) && entry_at(fsv, p).kind is Directory
}

/// The path's last component starts with the hidden-file marker.
pub open spec fn hidden_name(p: PathV) -> bool {
    p.1.len() > 0 && is_prefix_of("."@, p.1.last())
}

/// Saturating byte addition (the running total only sizes a progress
/// indicator).
pub open spec fn sat_add_u64(a: u64, b: u64) -> u64 {
    if a + b <= u64::MAX {
        (a + b) as u64
    } else {
        u64::MAX
    }
}

/// The apparent size the snapshot records for `p`.
pub open spec fn entry_size(fsv: Seq<FsEntry>, p: PathV) -> u64 {
    if has_entry(fsv, p) {
        match entry_at(fsv, p).kind {
            FileKind::Regular { size } => size,
            _ => 0,
        }
    } else {
        0
    }
}

/// The error sink records `top`'s argument position.
pub open spec fn ctx_records(ctx: Context, args: Seq<Seq<char>>, top: Seq<char>) -> bool {
    ctx.err_arg as int == arg_pos_spec(args, top, 0)
}

/// Traversal depth still available under the snapshot's deepest path.
pub open spec fn depth_measure(fs: Seq<FsEntry>, p: PathV) -> int {
    let m = max_parts(fs) + 1 - p.1.len();
    if m >= 0 {
        m
    } else {
        0
    }
}


/// `p` lies at or under `root`.
pub open spec fn descendant_of(p: PathV, root: PathV) -> bool {
    p.0 == root.0 && p.1.len() >= root.1.len() && p.1.take(root.1.len() as int) == root.1
}

/// Entry `i` of the snapshot lies at or under `root`.
pub open spec fn desc(fsv: Seq<FsEntry>, i: int, root: PathV) -> bool {
    0 <= i < fsv.len() && descendant_of(fsv[i].path.pv(), root)
}

/// No symbolic links, and canonical identities are injective.
pub open spec fn tree_clean(fsv: Seq<FsEntry>) -> bool {
    &&& link_free(fsv)
    &&& forall|i: int, j: int|
        0 <= i < j < fsv.len() ==> (#[trigger] fsv[i].canon.pv()) != (#[trigger] fsv[j].canon.pv())
}

/// The work item a mirrored entry gets.
pub open spec fn mirror_iv(top: Seq<char>, e: FsEntry) -> ItemV {
    (
        top,
        if e.kind is Directory {
            Action::CreateDir
        } else {
            Action::Copy
        },
        e.path.pv(),
    )
}

/// The conditions under which one traversal mirrors the subtree rooted
/// at `pathv` exactly: a clean tree, a cancellation token that never
/// fires, recursion enabled and hidden-filtering off, an existing
/// destination directory, a root strictly below the traversal parent,
/// no subtree identity already visited, every proper ancestor of a
/// subtree entry present as a directory, and no subtree file aliasing
/// its own destination.
pub open spec fn collect_clean_at(
    fsv: Seq<FsEntry>,
    destv: PathV,
    recursive: bool,
    no_hidden: bool,
    visited: Seq<FsPath>,
    tok: CancelToken,
    parentv: PathV,
    pathv: PathV,
) -> bool {
    &&& tree_clean(fsv)
    &&& tok.fires_after is None
    &&& recursive
    &&& !no_hidden
    &&& has_entry(fsv, pathv)
    &&& has_entry(fsv, destv)
    &&& entry_at(fsv, destv).kind is Directory
    &&& parentv.0 == pathv.0
    &&& parentv.1.len() < pathv.1.len()
    &&& parentv.1.is_prefix_of(pathv.1)
    &&& (forall|i: int|
        desc(fsv, i, pathv) ==> !visited_has(visited, (#[trigger] fsv[i].canon).pv()))
    &&& (forall|i: int, d: int|
        desc(fsv, i, pathv) && pathv.1.len() <= d < fsv[i].path.pv().1.len() ==> has_entry(
            fsv,
            (pathv.0, #[trigger] fsv[i].path.pv().1.take(d)),
        ) && entry_at(fsv, (pathv.0, fsv[i].path.pv().1.take(d))).kind is Directory)
    &&& (forall|i: int|
        desc(fsv, i, pathv) && !((#[trigger] fsv[i].kind) is Directory) ==> !same_file(
            fsv,
            resolve_dest_spec(fsv, destv, parentv, fsv[i].path.pv()),
            fsv[i].path.pv(),
        ))
}

/// The same conditions, read off a planner value.
pub open spec fn collect_clean(
    fsv: Seq<FsEntry>,
    cop: FileCopier,
    tok: CancelToken,
    parentv: PathV,
    pathv: PathV,
) -> bool {
    collect_clean_at(
        fsv,
        cop.dest.pv(),
        cop.recursive,
        cop.no_hidden,
        cop.visited@,
        tok,
        parentv,
        pathv,
    )
}

/// Concatenation on the left cancels.
pub proof fn lemma_concat_cancel(s: Seq<Seq<char>>, a: Seq<Seq<char>>, b: Seq<Seq<char>>)
    requires
        s + a == s + b,
    ensures
        a == b,
{
    assert((s + a).len() == s.len() + a.len());
    assert((s + b).len() == s.len() + b.len());
    assert(a.len() == b.len());
    assert forall|i: int| 0 <= i < a.len() implies a[i] == b[i] by {
        assert((s + a)[s.len() + i] == a[i]);
        assert((s + b)[s.len() + i] == b[i]);
    }
    assert(a =~= b);
}

/// Under a directory destination, distinct sources strictly below the
/// parent get distinct destinations.
pub proof fn lemma_rd_injective(
    fsv: Seq<FsEntry>,
    destv: PathV,
    parentv: PathV,
    p1: PathV,
    p2: PathV,
)
    requires
        has_entry(fsv, destv),
        entry_at(fsv, destv).kind is Directory,
        parentv.0 == p1.0,
        parentv.0 == p2.0,
        parentv.1.is_prefix_of(p1.1),
        parentv.1.is_prefix_of(p2.1),
        parentv.1.len() < p1.1.len(),
        parentv.1.len() < p2.1.len(),
        resolve_dest_spec(fsv, destv, parentv, p1) == resolve_dest_spec(fsv, destv, parentv, p2),
    ensures
        p1 == p2,
{
    let r1 = resolve_dest_spec(fsv, destv, parentv, p1);
    let r2 = resolve_dest_spec(fsv, destv, parentv, p2);
    assert(r1.1 == destv.1 + p1.1.skip(parentv.1.len() as int));
    assert(r2.1 == destv.1 + p2.1.skip(parentv.1.len() as int));
    lemma_concat_cancel(
        destv.1,
        p1.1.skip(parentv.1.len() as int),
        p2.1.skip(parentv.1.len() as int),
    );
    assert(p1.1 =~= p1.1.take(parentv.1.len() as int) + p1.1.skip(parentv.1.len() as int));
    assert(p2.1 =~= p2.1.take(parentv.1.len() as int) + p2.1.skip(parentv.1.len() as int));
    assert(p1.1.take(parentv.1.len() as int) == parentv.1);
    assert(p2.1.take(parentv.1.len() as int) == parentv.1);
    assert(p1.1 == p2.1);
    assert(p1 =~= p2);
}


/// The apparent size entry `j` contributes: regular files their size,
/// directories and everything else nothing.
pub open spec fn entry_size_at(fsv: Seq<FsEntry>, j: int) -> int {
    if fsv[j].kind is Directory {
        0
    } else {
        match fsv[j].kind {
            FileKind::Regular { size } => size as int,
            _ => 0,
        }
    }
}

/// Total apparent size of the non-directory entries at or under
/// `root`, over snapshot indices from `j` on.
#[verifier::opaque]
pub open spec fn tree_size_from(fsv: Seq<FsEntry>, root: PathV, j: int) -> int
    decreases fsv.len() - j,
{
    if j < 0 || j >= fsv.len() {
        0
    } else {
        let rest = tree_size_from(fsv, root, j + 1);
        if desc(fsv, j, root) && !(fsv[j].kind is Directory) {
            entry_size_at(fsv, j) + rest
        } else {
            rest
        }
    }
}

/// A byte count clamped into `u64` (sums only size a progress
/// indicator).
pub open spec fn clamp_u64(x: int) -> u64 {
    if x < 0 {
        0
    } else if x > u64::MAX {
        u64::MAX
    } else {
        x as u64
    }
}

pub proof fn lemma_tree_size_nonneg(fsv: Seq<FsEntry>, root: PathV, j: int)
    ensures
        tree_size_from(fsv, root, j) >= 0,
    decreases fsv.len() - j,
{
    reveal(tree_size_from);
    if 0 <= j < fsv.len() {
        lemma_tree_size_nonneg(fsv, root, j + 1);
    }
}

/// The subtree sum when exactly one index is a descendant.
pub proof fn lemma_tree_size_single(fsv: Seq<FsEntry>, root: PathV, j: int, fi: int)
    requires
        0 <= j,
        0 <= fi < fsv.len(),
        desc(fsv, fi, root),
        forall|i: int| desc(fsv, i, root) ==> i == fi,
    ensures
        tree_size_from(fsv, root, j) == if j <= fi {
            entry_size_at(fsv, fi)
        } else {
            0
        },
    decreases fsv.len() - j,
{
    reveal(tree_size_from);
    if 0 <= j < fsv.len() {
        lemma_tree_size_single(fsv, root, j + 1, fi);
        if j != fi {
            assert(!desc(fsv, j, root));
        } else {
            if fsv[fi].kind is Directory {
            }
        }
    }
}

/// Sum of the subtree sizes of the first `kk` children, over indices
/// from `j` on.
#[verifier::opaque]
pub open spec fn kids_sum_from(fsv: Seq<FsEntry>, kids: Seq<usize>, kk: int, j: int) -> int
    decreases kk,
{
    if kk <= 0 {
        0
    } else {
        kids_sum_from(fsv, kids, kk - 1, j) + tree_size_from(
            fsv,
            fsv[kids[kk - 1] as int].path.pv(),
            j,
        )
    }
}

/// What index `j` contributes across the first `kk` children.
#[verifier::opaque]
pub open spec fn kids_contrib(fsv: Seq<FsEntry>, kids: Seq<usize>, kk: int, j: int) -> int
    decreases kk,
{
    if kk <= 0 {
        0
    } else {
        kids_contrib(fsv, kids, kk - 1, j) + (if desc(fsv, j, fsv[kids[kk - 1] as int].path.pv())
            && !(fsv[j].kind is Directory) {
            entry_size_at(fsv, j)
        } else {
            0
        })
    }
}

pub proof fn lemma_kids_nonneg(fsv: Seq<FsEntry>, kids: Seq<usize>, kk: int)
    ensures
        kids_sum_from(fsv, kids, kk, 0) >= 0,
    decreases kk,
{
    reveal(kids_sum_from);
    if kk > 0 {
        lemma_kids_nonneg(fsv, kids, kk - 1);
        lemma_tree_size_nonneg(fsv, fsv[kids[kk - 1] as int].path.pv(), 0);
    }
}

pub proof fn lemma_kids_sum_end(fsv: Seq<FsEntry>, kids: Seq<usize>, kk: int, j: int)
    requires
        j >= fsv.len(),
    ensures
        kids_sum_from(fsv, kids, kk, j) == 0,
    decreases kk,
{
    reveal(kids_sum_from);
    reveal(tree_size_from);
    if kk > 0 {
        lemma_kids_sum_end(fsv, kids, kk - 1, j);
    }
}

/// Peeling one index off every child's subtree sum.
pub proof fn lemma_kids_sum_step(fsv: Seq<FsEntry>, kids: Seq<usize>, kk: int, j: int)
    requires
        0 <= j < fsv.len(),
    ensures
        kids_sum_from(fsv, kids, kk, j) == kids_contrib(fsv, kids, kk, j) + kids_sum_from(
            fsv,
            kids,
            kk,
            j + 1,
        ),
    decreases kk,
{
    reveal(kids_sum_from);
    reveal(kids_contrib);
    reveal(tree_size_from);
    if kk > 0 {
        lemma_kids_sum_step(fsv, kids, kk - 1, j);
    }
}

/// An index descends from at most one child.
pub proof fn lemma_children_disjoint(
    fsv: Seq<FsEntry>,
    pathv: PathV,
    kids: Seq<usize>,
    q1: int,
    q2: int,
    j: int,
)
    requires
        paths_unique(fsv),
        forall|q: int|
            0 <= q < kids.len() ==> (#[trigger] kids[q]) < fsv.len() && is_child_of(
                fsv[kids[q] as int].path.pv(),
                pathv,
            ),
        forall|a: int, b: int| 0 <= a < b < kids.len() ==> kids[a] < kids[b],
        0 <= q1 < kids.len(),
        0 <= q2 < kids.len(),
        0 <= j < fsv.len(),
        desc(fsv, j, fsv[kids[q1] as int].path.pv()),
        desc(fsv, j, fsv[kids[q2] as int].path.pv()),
    ensures
        q1 == q2,
{
    if q1 != q2 {
        let c1 = fsv[kids[q1] as int].path.pv();
        let c2 = fsv[kids[q2] as int].path.pv();
        let e = fsv[j].path.pv();
        let pl = pathv.1.len() as int;
        assert(e.1.take(c1.1.len() as int)[pl] == c1.1[pl]);
        assert(e.1.take(c2.1.len() as int)[pl] == c2.1[pl]);
        assert(e.1[pl] == c1.1[pl]);
        assert(e.1[pl] == c2.1[pl]);
        assert(c1.1 =~= c2.1) by {
            assert forall|w: int| 0 <= w < c1.1.len() implies c1.1[w] == c2.1[w] by {
                if w < pl {
                    assert(c1.1.drop_last()[w] == pathv.1[w]);
                    assert(c2.1.drop_last()[w] == pathv.1[w]);
                }
            }
        }
        assert(c1 == c2);
        assert(kids[q1] != kids[q2]) by {
            if q1 < q2 {
                assert(kids[q1] < kids[q2]);
            } else {
                assert(kids[q2] < kids[q1]);
            }
        }
        if kids[q1] < kids[q2] {
            assert(fsv[kids[q1] as int].path.pv() != fsv[kids[q2] as int].path.pv());
        } else {
            assert(fsv[kids[q2] as int].path.pv() != fsv[kids[q1] as int].path.pv());
        }
        assert(false);
    }
}

/// Index `j`'s contribution across all children equals its direct
/// contribution to the subtree, under the clean-tree conditions.
pub proof fn lemma_kids_contrib_eq(
    fsv: Seq<FsEntry>,
    pathv: PathV,
    kids: Seq<usize>,
    kk: int,
    j: int,
    qhit: int,
)
    requires
        paths_unique(fsv),
        forall|q: int|
            0 <= q < kids.len() ==> (#[trigger] kids[q]) < fsv.len() && is_child_of(
                fsv[kids[q] as int].path.pv(),
                pathv,
            ),
        forall|a: int, b: int| 0 <= a < b < kids.len() ==> kids[a] < kids[b],
        0 <= kk <= kids.len(),
        0 <= j < fsv.len(),
        0 <= qhit < kids.len(),
        desc(fsv, j, fsv[kids[qhit] as int].path.pv()),
        !(fsv[j].kind is Directory),
    ensures
        kids_contrib(fsv, kids, kk, j) == if qhit < kk {
            entry_size_at(fsv, j)
        } else {
            0
        },
    decreases kk,
{
    reveal(kids_contrib);
    if kk > 0 {
        lemma_kids_contrib_eq(fsv, pathv, kids, kk - 1, j, qhit);
        if kk - 1 != qhit {
            if desc(fsv, j, fsv[kids[kk - 1] as int].path.pv()) {
                lemma_children_disjoint(fsv, pathv, kids, kk - 1, qhit, j);
            }
        }
    }
}

/// Index `j` contributes nothing to any child when it is no descendant
/// of the root at all.
pub proof fn lemma_kids_contrib_zero(
    fsv: Seq<FsEntry>,
    pathv: PathV,
    kids: Seq<usize>,
    kk: int,
    j: int,
)
    requires
        forall|q: int|
            0 <= q < kids.len() ==> (#[trigger] kids[q]) < fsv.len() && is_child_of(
                fsv[kids[q] as int].path.pv(),
                pathv,
            ),
        0 <= kk <= kids.len(),
        0 <= j < fsv.len(),
        fsv[j].kind is Directory || !desc(fsv, j, pathv),
    ensures
        kids_contrib(fsv, kids, kk, j) == 0,
    decreases kk,
{
    reveal(kids_contrib);
    if kk > 0 {
        lemma_kids_contrib_zero(fsv, pathv, kids, kk - 1, j);
        if desc(fsv, j, fsv[kids[kk - 1] as int].path.pv()) && !(fsv[j].kind is Directory) {
            lemma_child_desc(fsv[kids[kk - 1] as int].path.pv(), pathv);
            lemma_desc_trans(fsv[j].path.pv(), fsv[kids[kk - 1] as int].path.pv(), pathv);
            assert(false);
        }
    }
}

/// The subtree total of a directory equals the sum of its children's
/// subtree totals: every non-directory descendant lies under exactly
/// one child.
pub proof fn lemma_tree_size_partition(
    fsv: Seq<FsEntry>,
    pathv: PathV,
    kids: Seq<usize>,
    j: int,
)
    requires
        paths_unique(fsv),
        has_entry(fsv, pathv),
        entry_at(fsv, pathv).kind is Directory,
        forall|q: int|
            0 <= q < kids.len() ==> (#[trigger] kids[q]) < fsv.len() && is_child_of(
                fsv[kids[q] as int].path.pv(),
                pathv,
            ),
        forall|i: int|
            0 <= i < fsv.len() && is_child_of(#[trigger] fsv[i].path.pv(), pathv)
                ==> kids.contains(i as usize),
        forall|a: int, b: int| 0 <= a < b < kids.len() ==> kids[a] < kids[b],
        forall|i: int, d: int|
            desc(fsv, i, pathv) && pathv.1.len() <= d < fsv[i].path.pv().1.len() ==> has_entry(
                fsv,
                (pathv.0, #[trigger] fsv[i].path.pv().1.take(d)),
            ) && entry_at(fsv, (pathv.0, fsv[i].path.pv().1.take(d))).kind is Directory,
        fsv.len() <= usize::MAX as int,
        0 <= j,
    ensures
        tree_size_from(fsv, pathv, j) == kids_sum_from(fsv, kids, kids.len() as int, j),
    decreases fsv.len() - j,
{
    reveal(tree_size_from);
    reveal(kids_sum_from);
    reveal(kids_contrib);
    if j >= fsv.len() {
        lemma_kids_sum_end(fsv, kids, kids.len() as int, j);
    } else {
        lemma_tree_size_partition(fsv, pathv, kids, j + 1);
        lemma_kids_sum_step(fsv, kids, kids.len() as int, j);
        if desc(fsv, j, pathv) && !(fsv[j].kind is Directory) {
            let e = fsv[j].path.pv();
            let pl1 = pathv.1.len() as int + 1;
            assert(e.1.len() > pathv.1.len()) by {
                if e.1.len() == pathv.1.len() {
                    assert(e.1 =~= pathv.1);
                    assert(e == pathv);
                    let w = choose|w: int| 0 <= w < fsv.len() && fsv[w].path.pv() == pathv;
                    if w < j {
                        assert(fsv[w].path.pv() != fsv[j].path.pv());
                    } else if w > j {
                        assert(fsv[j].path.pv() != fsv[w].path.pv());
                    }
                    assert(fsv[j] == entry_at(fsv, pathv));
                    assert(false);
                }
            }
            let a = (pathv.0, e.1.take(pl1));
            if e.1.len() == pl1 {
                assert(e.1.take(pl1) =~= e.1);
                assert(has_entry(fsv, a)) by {
                    assert(fsv[j].path.pv() == a);
                }
            } else {
                assert(fsv[j].path.pv().1.take(pl1) == a.1);
                assert(has_entry(fsv, a));
            }
            let ai = choose|ai: int| 0 <= ai < fsv.len() && fsv[ai].path.pv() == a;
            assert(is_child_of(fsv[ai].path.pv(), pathv)) by {
                assert(a.1.drop_last() =~= pathv.1) by {
                    assert forall|w: int| 0 <= w < pathv.1.len() implies a.1.drop_last()[w]
                        == pathv.1[w] by {
                        assert(e.1.take(pathv.1.len() as int)[w] == pathv.1[w]);
                        assert(e.1.take(pl1)[w] == e.1[w]);
                    }
                }
            }
            assert(kids.contains(ai as usize));
            let qhit = choose|q: int| 0 <= q < kids.len() && kids[q] == ai as usize;
            assert(ai as usize as int == ai);
            assert(kids[qhit] as int == ai);
            assert(desc(fsv, j, fsv[kids[qhit] as int].path.pv())) by {
                assert(e.1.take(a.1.len() as int) =~= a.1);
            }
            lemma_kids_contrib_eq(fsv, pathv, kids, kids.len() as int, j, qhit);
        } else {
            lemma_kids_contrib_zero(fsv, pathv, kids, kids.len() as int, j);
        }
    }
}

/// The planner's state for one copy invocation.
pub struct FileCopier {
    pub dest: FsPath,
    pub debug: bool,
    pub ignore_links: bool,
    pub confirm_overwrite: bool,
    pub no_hidden: bool,
    pub preserve_metadata: bool,
    pub progress: bool,
    pub recursive: bool,
    pub srcs: Vec<String>,
    pub args: Vec<String>,
    pub visited: Vec<FsPath>,
    pub work: Plan,
    pub total_size: u64,
    pub warnings: Vec<String>,
}

/// The planner's option and argument fields are untouched.
pub open spec fn config_unchanged(a: FileCopier, b: FileCopier) -> bool {
    &&& b.debug == a.debug
    &&& b.ignore_links == a.ignore_links
    &&& b.confirm_overwrite == a.confirm_overwrite
    &&& b.no_hidden == a.no_hidden
    &&& b.preserve_metadata == a.preserve_metadata
    &&& b.progress == a.progress
    &&& b.recursive == a.recursive
    &&& b.srcs == a.srcs
    &&& b.args == a.args
}

/// Only the plan changed.
pub open spec fn only_work_changed(a: FileCopier, b: FileCopier) -> bool {
    &&& config_unchanged(a, b)
    &&& b.dest == a.dest
    &&& b.visited == a.visited
    &&& b.total_size == a.total_size
    &&& b.warnings == a.warnings
}

impl FileCopier {
    /// The plan so far, as a map.
    pub open spec fn work_map(self) -> Map<PathV, ItemV> {
        self.work.view_map()
    }

    /// Planner invariant: the plan is sorted; every planned directory
    /// creation reads an entry the snapshot knows, whose canonical
    /// identity has been visited; and no two planned directory
    /// creations share a canonical identity.
    pub open spec fn inv(self, fs: Seq<FsEntry>) -> bool {
        &&& self.work.wf()
        &&& forall|k: PathV|
            self.work_map().contains_key(k) && (#[trigger] self.work_map()[k]).1
                == Action::CreateDir ==> has_entry(fs, self.work_map()[k].2) && visited_has(
                self.visited@,
                canon_of(fs, self.work_map()[k].2),
            )
        &&& forall|k1: PathV, k2: PathV|
            self.work_map().contains_key(k1) && self.work_map().contains_key(k2) && (
            #[trigger] self.work_map()[k1]).1 == Action::CreateDir && (
            #[trigger] self.work_map()[k2]).1 == Action::CreateDir && k1 != k2 ==> canon_of(
                fs,
                self.work_map()[k1].2,
            ) != canon_of(fs, self.work_map()[k2].2)
    }

    /// A fresh planner: the last path is the destination, the others
    /// are the sources, and the options come from the parsed flags.
    pub fn new(paths: &Vec<String>, flags: &CommandFlags, args: &Vec<String>) -> (r: Self)
        requires
            paths@.len() >= 1,
            flags.wf(),
        ensures
            r.dest.pv() == crate::path::path_of_string(paths@.last()@),
            dv(r.srcs@) == dv(paths@).take(paths@.len() - 1),
            dv(r.args@) == dv(args@),
            r.debug == flags.values_map().contains_key("debug"@),
            r.ignore_links == flags.values_map().contains_key("no-dereference"@),
            r.confirm_overwrite == flags.values_map().contains_key("interactive"@),
            r.no_hidden == flags.values_map().contains_key("no-hidden"@),
            r.preserve_metadata == !flags.values_map().contains_key("no-preserve"@),
            r.progress == flags.values_map().contains_key("progress"@),
            r.recursive == flags.values_map().contains_key("recursive"@),
            r.visited@.len() == 0,
            r.work_map() == Map::<PathV, ItemV>::empty(),
            r.work.entries@.len() == 0,
            r.work.wf(),
            r.total_size == 0,
            r.warnings@.len() == 0,
            forall|fsv: Seq<FsEntry>| r.inv(fsv),
    {
        let n = paths.len();
        let dest = crate::path::parse_path(paths[n - 1].as_str());
        proof {
            assert(dv(paths@)[n - 1] == paths@[n - 1]@);
        }
        let mut srcs: Vec<String> = Vec::new();
        let mut i: usize = 0;
        while i < n - 1
            invariant
                n == paths@.len(),
                n >= 1,
                i <= n - 1,
                srcs@.len() == i,
                forall|j: int| 0 <= j < i ==> (#[trigger] srcs@[j])@ == paths@[j]@,
            decreases n - 1 - i,
        {
            srcs.push(paths[i].clone());
            i += 1;
        }
        proof {
            assert(dv(srcs@) =~= dv(paths@).take(paths@.len() - 1));
        }
        let mut args2: Vec<String> = Vec::new();
        let m = args.len();
        let mut j: usize = 0;
        while j < m
            invariant
                m == args@.len(),
                j <= m,
                args2@.len() == j,
                forall|q: int| 0 <= q < j ==> (#[trigger] args2@[q])@ == args@[q]@,
            decreases m - j,
        {
            args2.push(args[j].clone());
            j += 1;
        }
        proof {
            assert(dv(args2@) =~= dv(args@));
        }
        FileCopier {
            dest,
            debug: flags.is_present("debug"),
            ignore_links: flags.is_present("no-dereference"),
            confirm_overwrite: flags.is_present("interactive"),
            no_hidden: flags.is_present("no-hidden"),
            preserve_metadata: !flags.is_present("no-preserve"),
            progress: flags.is_present("progress"),
            recursive: flags.is_present("recursive"),
            srcs,
            args: args2,
            visited: Vec::new(),
            work: Plan::new(),
            total_size: 0,
            warnings: Vec::new(),
        }
    }

    /// Builds an error message for `path` and records the position of
    /// the source argument `top` in the error-location sink.
    fn error(&self, ctx: &mut Context, top: &str, path: &FsPath, msg: &str) -> (r: String)
        ensures
            r@ == display_of(path.pv()) + ": "@ + msg@,
            ctx_records(*final(ctx), dv(self.args@), top@),
    {
        let pos = arg_position(&self.args, top);
        ctx.set_err_arg(pos);
        let shown = display_path(path);
        concat3(shown.as_str(), ": ", msg)
    }

    /// Is some canonical identity already visited?
    fn visited_contains(&self, p: &FsPath) -> (r: bool)
        ensures
            r == visited_has(self.visited@, p.pv()),
    {
        let n = self.visited.len();
        let mut i: usize = 0;
        while i < n
            invariant
                n == self.visited@.len(),
                i <= n,
                forall|j: int| 0 <= j < i ==> (#[trigger] self.visited@[j]).pv() != p.pv(),
            decreases n - i,
        {
            if path_eq(&self.visited[i], p) {
                return true;
            }
            i += 1;
        }
        false
    }

    /// Computes the destination path for one entry.
    fn resolve_dest(&self, fs: &FsSnapshot, parent: &FsPath, src: &FsPath) -> (r: FsPath)
        requires
            fs.wf(),
            src.pv() == parent.pv() ==> src.pv().1.len() > 0,
        ensures
            r.pv() == resolve_dest_spec(fs.entries@, self.dest.pv(), parent.pv(), src.pv()),
    {
        let is_dir = match fs.lookup(&self.dest) {
            Option::Some(i) => matches!(&fs.entries[i].kind, FileKind::Directory),
            Option::None => false,
        };
        if is_dir {
            if path_eq(src, parent) {
                let mut out = self.dest.clone();
                match src.file_name() {
                    Option::Some(name) => {
                        let nm = name.clone();
                        out.push_part(nm.as_str());
                    },
                    Option::None => {
                        proof {
                            assert(false);
                        }
                    },
                }
                out
            } else {
                let plen = parent.parts.len();
                let is_pref = src.absolute == parent.absolute && path_prefix_exec(parent, src);
                if is_pref {
                    let mut out = self.dest.clone();
                    let m = src.parts.len();
                    let mut q: usize = plen;
                    while q < m
                        invariant
                            plen <= q <= m,
                            m == src.parts@.len(),
                            out.absolute == self.dest.absolute,
                            dv(out.parts@) == dv(self.dest.parts@) + dv(src.parts@).subrange(
                                plen as int,
                                q as int,
                            ),
                        decreases m - q,
                    {
                        out.push_part(src.parts[q].as_str());
                        proof {
                            assert(dv(src.parts@).subrange(plen as int, q + 1) =~= dv(
                                src.parts@,
                            ).subrange(plen as int, q as int).push(dv(src.parts@)[q as int]));
                        }
                        q += 1;
                    }
                    proof {
                        assert(dv(src.parts@).subrange(plen as int, m as int) =~= dv(
                            src.parts@,
                        ).skip(plen as int));
                    }
                    out
                } else {
                    src.clone()
                }
            }
        } else {
            self.dest.clone()
        }
    }

    /// Plans the creation of directory `src` at its destination.
    pub fn add_create_dir(&mut self, fs: &FsSnapshot, top: &str, parent: &FsPath, src: &FsPath)
        requires
            fs.wf(),
            old(self).inv(fs.entries@),
            src.pv() == parent.pv() ==> src.pv().1.len() > 0,
            has_entry(fs.entries@, src.pv()),
            visited_has(old(self).visited@, canon_of(fs.entries@, src.pv())),
            forall|k: PathV|
                old(self).work_map().contains_key(k) && (#[trigger] old(self).work_map()[k]).1
                    == Action::CreateDir ==> canon_of(fs.entries@, old(self).work_map()[k].2)
                    != canon_of(fs.entries@, src.pv()),
        ensures
            final(self).inv(fs.entries@),
            final(self).work_map() == old(self).work_map().insert(
                resolve_dest_spec(fs.entries@, old(self).dest.pv(), parent.pv(), src.pv()),
                (top@, Action::CreateDir, src.pv()),
            ),
            only_work_changed(*old(self), *final(self)),
    {
        let actual_dest = self.resolve_dest(fs, parent, src);
        let item = WorkItem::new(top, Action::CreateDir, src.clone());
        self.work.insert(actual_dest, item);
    }

    /// Refuses a second source aimed at a destination that is not an
    /// existing directory.
    fn check_dir_dest(&self, fs: &FsSnapshot) -> (r: Result<(), String>)
        requires
            fs.wf(),
        ensures
            r is Err <==> dest_conflict(
                fs.entries@,
                self.dest.pv(),
                self.work.entries@.len() as int,
            ),
            r is Err ==> r->Err_0@ == display_of(self.dest.pv()) + ": "@ + (if has_entry(
                fs.entries@,
                self.dest.pv(),
            ) {
                "Copying multiple sources into single destination"@
            } else {
                "Copying multiple sources to non-existing directory"@
            }),
    {
        let exists = match fs.lookup(&self.dest) {
            Option::Some(i) => true,
            Option::None => false,
        };
        let is_dir = match fs.lookup(&self.dest) {
            Option::Some(i) => matches!(&fs.entries[i].kind, FileKind::Directory),
            Option::None => false,
        };
        if exists {
            if !is_dir && !self.work.is_empty() {
                let shown = display_path(&self.dest);
                return Result::Err(
                    concat3(shown.as_str(), ": ", "Copying multiple sources into single destination"),
                );
            }
        } else if !self.work.is_empty() {
            let shown = display_path(&self.dest);
            return Result::Err(
                concat3(shown.as_str(), ": ", "Copying multiple sources to non-existing directory"),
            );
        }
        Result::Ok(())
    }

    /// Plans copying the contents of `src`, which is not a directory.
    /// Fails when a second source aims at a non-directory destination,
    /// and when source and destination are the same underlying file.
    pub fn add_copy(&mut self, fs: &FsSnapshot, ctx: &mut Context, top: &str, parent: &FsPath, src: &FsPath) -> (r:
        Result<(), String>)
        requires
            fs.wf(),
            old(self).inv(fs.entries@),
            src.pv() == parent.pv() ==> src.pv().1.len() > 0,
            has_entry(fs.entries@, src.pv()),
            !(entry_at(fs.entries@, src.pv()).kind is Directory),
        ensures
            final(self).inv(fs.entries@),
            ({
                let destv = resolve_dest_spec(
                    fs.entries@,
                    old(self).dest.pv(),
                    parent.pv(),
                    src.pv(),
                );
                let conflict = dest_conflict(
                    fs.entries@,
                    old(self).dest.pv(),
                    old(self).work.entries@.len() as int,
                );
                let same = same_file(fs.entries@, destv, src.pv());
                &&& (r is Err <==> conflict || (!conflict && same))
                &&& (r is Ok ==> final(self).work_map() == old(self).work_map().insert(
                    destv,
                    (top@, Action::Copy, src.pv()),
                ) && only_work_changed(*old(self), *final(self))
                    && final(self).work.entries@.len() == old(self).work.entries@.len() + (
                if old(self).work_map().contains_key(destv) {
                    0int
                } else {
                    1int
                }))
                &&& (r is Err ==> *final(self) == *old(self))
                &&& (r is Err && !conflict && same ==> r->Err_0@ == display_of(destv) + ": "@
                    + "Source and destination are the same"@ && ctx_records(
                    *final(ctx),
                    dv(old(self).args@),
                    top@,
                ))
                &&& (r is Err && conflict ==> *final(ctx) == *old(ctx))
            }),
    {
        match self.check_dir_dest(fs) {
            Result::Err(m) => {
                return Result::Err(m);
            },
            Result::Ok(u) => {},
        }
        let dest = self.resolve_dest(fs, parent, src);
        let same = match fs.lookup(&dest) {
            Option::Some(i) => {
                let si = match fs.lookup(src) {
                    Option::Some(si) => si,
                    Option::None => {
                        proof {
                            assert(false);
                        }
                        0
                    },
                };
                path_eq(&fs.entries[i].canon, &fs.entries[si].canon)
            },
            Option::None => false,
        };
        if same {
            let msg = self.error(ctx, top, &dest, "Source and destination are the same");
            return Result::Err(msg);
        }
        let item = WorkItem::new(top, Action::Copy, src.clone());
        self.work.insert(dest, item);
        Result::Ok(())
    }

    /// Plans recreating the symbolic link `src`: its fully resolved
    /// target (`target`, dereferenced by the caller) is re-rooted under
    /// the destination, so the new link points at the corresponding
    /// location in the copied tree. Fails only in the corner where the
    /// target is the empty traversal parent, which no destination can
    /// be computed for.
    pub fn add_link(
        &mut self,
        fs: &FsSnapshot,
        ctx: &mut Context,
        top: &str,
        parent: &FsPath,
        src: &FsPath,
        target: &FsPath,
    ) -> (r: Result<(), String>)
        requires
            fs.wf(),
            old(self).inv(fs.entries@),
            src.pv() == parent.pv() ==> src.pv().1.len() > 0,
        ensures
            final(self).inv(fs.entries@),
            ({
                let guard = target.pv() == parent.pv() && target.pv().1.len() == 0;
                &&& (r is Err <==> guard)
                &&& (r is Ok ==> only_work_changed(*old(self), *final(self)) && *final(ctx)
                    == *old(ctx) && final(self).work_map() == old(self).work_map().insert(
                    resolve_dest_spec(fs.entries@, old(self).dest.pv(), parent.pv(), src.pv()),
                    (
                        top@,
                        Action::Link,
                        resolve_dest_spec(
                            fs.entries@,
                            old(self).dest.pv(),
                            parent.pv(),
                            target.pv(),
                        ),
                    ),
                ))
                &&& (r is Err ==> *final(self) == *old(self) && r->Err_0@ == display_of(src.pv())
                    + ": "@ + "Could not get link target"@ && ctx_records(
                    *final(ctx),
                    dv(old(self).args@),
                    top@,
                ))
            }),
    {
        if target.parts.len() == 0 && path_eq(target, parent) {
            let msg = self.error(ctx, top, src, "Could not get link target");
            return Result::Err(msg);
        }
        let target_dest = self.resolve_dest(fs, parent, target);
        let dest = self.resolve_dest(fs, parent, src);
        let item = WorkItem::new(top, Action::Link, target_dest);
        self.work.insert(dest, item);
        Result::Ok(())
    }
}


/// Descendant-of is transitive.
pub proof fn lemma_desc_trans(p: PathV, mid: PathV, root: PathV)
    requires
        descendant_of(p, mid),
        descendant_of(mid, root),
    ensures
        descendant_of(p, root),
{
    assert forall|w: int| 0 <= w < root.1.len() implies p.1.take(root.1.len() as int)[w] == root.1[
        w
    ] by {
        assert(p.1.take(mid.1.len() as int)[w] == mid.1[w]);
        assert(p.1[w] == mid.1[w]);
        assert(mid.1.take(root.1.len() as int)[w] == root.1[w]);
    }
    assert(p.1.take(root.1.len() as int) =~= root.1);
}

/// A direct child is a descendant.
pub proof fn lemma_child_desc(c: PathV, d: PathV)
    requires
        is_child_of(c, d),
    ensures
        descendant_of(c, d),
{
    assert(c.1.take(d.1.len() as int) =~= c.1.drop_last());
}

/// Entry paths are unique.
pub open spec fn paths_unique(fsv: Seq<FsEntry>) -> bool {
    forall|i: int, j: int|
        0 <= i < j < fsv.len() ==> (#[trigger] fsv[i].path.pv()) != (#[trigger] fsv[j].path.pv())
}

/// Entry `i` was handled by the time the first `k` children of `pathv`
/// had been walked: it is the root itself or lies under an already
/// walked child.
pub open spec fn handled(fsv: Seq<FsEntry>, pathv: PathV, kids: Seq<usize>, k: int, i: int) -> bool {
    desc(fsv, i, pathv) && (fsv[i].path.pv() == pathv || exists|q: int|
        0 <= q < k && descendant_of(fsv[i].path.pv(), fsv[kids[q] as int].path.pv()))
}

/// Nothing under the `k`-th child has been handled before that child
/// is walked.
pub proof fn lemma_not_handled(fsv: Seq<FsEntry>, pathv: PathV, kids: Seq<usize>, k: int, i: int)
    requires
        paths_unique(fsv),
        forall|q: int|
            0 <= q < kids.len() ==> (#[trigger] kids[q]) < fsv.len() && is_child_of(
                fsv[kids[q] as int].path.pv(),
                pathv,
            ),
        forall|q1: int, q2: int| 0 <= q1 < q2 < kids.len() ==> kids[q1] < kids[q2],
        0 <= k < kids.len(),
        0 <= i < fsv.len(),
        desc(fsv, i, fsv[kids[k] as int].path.pv()),
    ensures
        !handled(fsv, pathv, kids, k, i),
{
    let ck = fsv[kids[k] as int].path.pv();
    let e = fsv[i].path.pv();
    if handled(fsv, pathv, kids, k, i) {
        if e == pathv {
            assert(e.1.len() >= ck.1.len());
            assert(false);
        } else {
            let q = choose|q: int|
                0 <= q < k && descendant_of(e, fsv[kids[q] as int].path.pv());
            let cq = fsv[kids[q] as int].path.pv();
            let pl = pathv.1.len() as int;
            assert(e.1.take(cq.1.len() as int)[pl] == cq.1[pl]);
            assert(e.1.take(ck.1.len() as int)[pl] == ck.1[pl]);
            assert(e.1[pl] == cq.1[pl]);
            assert(e.1[pl] == ck.1[pl]);
            assert(cq.1 =~= ck.1) by {
                assert forall|w: int| 0 <= w < ck.1.len() implies cq.1[w] == ck.1[w] by {
                    if w < pl {
                        assert(cq.1.drop_last()[w] == pathv.1[w]);
                        assert(ck.1.drop_last()[w] == pathv.1[w]);
                    }
                }
            }
            assert(cq == ck);
            assert(kids[q] != kids[k]);
            if kids[q] < kids[k] {
                assert(fsv[kids[q] as int].path.pv() != fsv[kids[k] as int].path.pv());
            } else {
                assert(fsv[kids[k] as int].path.pv() != fsv[kids[q] as int].path.pv());
            }
            assert(false);
        }
    }
}

/// Every entry at or under `rootv` is planned, with exactly its
/// mirrored destination and item.
pub open spec fn covered_subtree(
    fsv: Seq<FsEntry>,
    now: Map<PathV, ItemV>,
    destv: PathV,
    parentv: PathV,
    rootv: PathV,
    top: Seq<char>,
) -> bool {
    forall|i: int|
        desc(fsv, i, rootv) ==> now.contains_key(
            resolve_dest_spec(fsv, destv, parentv, (#[trigger] fsv[i].path).pv()),
        ) && now[resolve_dest_spec(fsv, destv, parentv, fsv[i].path.pv())] == mirror_iv(
            top,
            fsv[i],
        )
}

/// Any planned destination that is new or changed belongs to an entry
/// at or under `rootv`.
pub open spec fn work_localized(
    fsv: Seq<FsEntry>,
    base: Map<PathV, ItemV>,
    now: Map<PathV, ItemV>,
    destv: PathV,
    parentv: PathV,
    rootv: PathV,
) -> bool {
    forall|k: PathV|
        #![trigger now.contains_key(k)]
        now.contains_key(k) && (!base.contains_key(k) || now[k] != base[k]) ==> exists|i: int|
            desc(fsv, i, rootv) && k == resolve_dest_spec(fsv, destv, parentv, fsv[i].path.pv())
}

/// Any newly visited identity belongs to an entry at or under `rootv`.
pub open spec fn visited_localized(
    fsv: Seq<FsEntry>,
    base: Seq<FsPath>,
    now: Seq<FsPath>,
    rootv: PathV,
) -> bool {
    forall|p: PathV|
        #![trigger visited_has(now, p)]
        visited_has(now, p) && !visited_has(base, p) ==> exists|i: int|
            desc(fsv, i, rootv) && (#[trigger] fsv[i].canon).pv() == p
}

impl FileCopier {
    /// Collects planning information for one path: records a link, a
    /// directory (recursing into its children, each canonical identity
    /// at most once), or a file copy, honoring the options and polling
    /// the cancellation token at every step. Under the `collect_clean`
    /// conditions the subtree rooted at `path` is mirrored exactly
    /// into the plan. Returns `Ok(false)` when cancellation fired.
    #[verifier::loop_isolation(false)]
    #[verifier::rlimit(100)]
    pub fn collect_path_info(
        &mut self,
        fs: &FsSnapshot,
        ctx: &mut Context,
        token: &mut CancelToken,
        cwd: &FsPath,
        top: &str,
        parent: &FsPath,
        path: &FsPath,
    ) -> (r: Result<bool, String>)
        requires
            fs.wf(),
            cwd.absolute,
            old(self).inv(fs.entries@),
            path.pv() == parent.pv() ==> path.pv().1.len() > 0,
        ensures
            final(self).inv(fs.entries@),
            config_unchanged(*old(self), *final(self)),
            final(self).dest == old(self).dest,
            final(token).fires_after == old(token).fires_after,
            forall|k: PathV|
                old(self).work_map().contains_key(k) ==> final(self).work_map().contains_key(k),
            old(self).visited@.is_prefix_of(final(self).visited@),
            collect_clean(fs.entries@, *old(self), *old(token), parent.pv(), path.pv()) ==> ({
                &&& r == Result::<bool, String>::Ok(true)
                &&& covered_subtree(
                    fs.entries@,
                    final(self).work_map(),
                    old(self).dest.pv(),
                    parent.pv(),
                    path.pv(),
                    top@,
                )
                &&& work_localized(
                    fs.entries@,
                    old(self).work_map(),
                    final(self).work_map(),
                    old(self).dest.pv(),
                    parent.pv(),
                    path.pv(),
                )
                &&& visited_localized(
                    fs.entries@,
                    old(self).visited@,
                    final(self).visited@,
                    path.pv(),
                )
                &&& final(self).total_size == clamp_u64(
                    old(self).total_size + tree_size_from(fs.entries@, path.pv(), 0),
                )
            }),
            old(token).fired() ==> r == Result::<bool, String>::Ok(false) && *final(self) == *old(
                self,
            ) && *final(ctx) == *old(ctx),
            final(self).total_size >= old(self).total_size,
            ({
                let fsv = fs.entries@;
                let pv = path.pv();
                let fired0 = old(token).fired();
                let linkskip = old(self).ignore_links && is_link_entry(fsv, pv);
                let hideskip = !linkskip && old(self).no_hidden && hidden_name(pv);
                let skipped = linkskip || hideskip;
                &&& (!fired0 && linkskip ==> r == Result::<bool, String>::Ok(true) && *final(self)
                    == *old(self) && *final(ctx) == *old(ctx))
                &&& (!fired0 && hideskip ==> r == Result::<bool, String>::Ok(true) && *final(self)
                    == *old(self) && *final(ctx) == *old(ctx))
                &&& (!fired0 && !skipped && is_link_entry(fsv, pv) ==> ({
                    &&& (r is Ok ==> r == Result::<bool, String>::Ok(true) && only_work_changed(
                        *old(self),
                        *final(self),
                    ) && (exists|tv: PathV|
                        final(self).work_map() == old(self).work_map().insert(
                            resolve_dest_spec(fsv, old(self).dest.pv(), parent.pv(), pv),
                            (
                                top@,
                                Action::Link,
                                resolve_dest_spec(fsv, old(self).dest.pv(), parent.pv(), tv),
                            ),
                        )))
                    &&& (r is Err ==> *final(self) == *old(self) && r->Err_0@ == display_of(pv)
                        + ": "@ + "Could not get link target"@ && ctx_records(
                        *final(ctx),
                        dv(old(self).args@),
                        top@,
                    ))
                }))
                &&& (!fired0 && !skipped && !is_link_entry(fsv, pv) && is_dir_entry(fsv, pv)
                    && !old(self).recursive ==> ({
                    &&& r == Result::<bool, String>::Ok(true)
                    &&& final(self).work_map() == old(self).work_map()
                    &&& final(self).visited == old(self).visited
                    &&& final(self).total_size == old(self).total_size
                    &&& dv(final(self).warnings@) == dv(old(self).warnings@).push(
                        display_of(pv) + ": "@ + "Is a directory"@,
                    )
                    &&& *final(ctx) == *old(ctx)
                }))
                &&& (!fired0 && !skipped && !is_link_entry(fsv, pv) && is_dir_entry(fsv, pv)
                    && old(self).recursive && visited_has(old(self).visited@, canon_of(fsv, pv))
                    ==> r == Result::<bool, String>::Ok(true) && *final(self) == *old(self)
                    && *final(ctx) == *old(ctx))
                &&& (!fired0 && !skipped && !is_link_entry(fsv, pv) && !is_dir_entry(fsv, pv)
                    && has_entry(fsv, pv) ==> ({
                    let destv = resolve_dest_spec(fsv, old(self).dest.pv(), parent.pv(), pv);
                    let conflict = dest_conflict(
                        fsv,
                        old(self).dest.pv(),
                        old(self).work.entries@.len() as int,
                    );
                    let same = same_file(fsv, destv, pv);
                    &&& (r is Err <==> conflict || (!conflict && same))
                    &&& final(self).total_size == sat_add_u64(
                        old(self).total_size,
                        entry_size(fsv, pv),
                    )
                    &&& final(self).visited == old(self).visited
                    &&& final(self).warnings == old(self).warnings
                    &&& final(self).dest == old(self).dest
                    &&& (r is Ok ==> r == Result::<bool, String>::Ok(true)
                        && final(self).work_map() == old(self).work_map().insert(
                        destv,
                        (top@, Action::Copy, pv),
                    ))
                    &&& (r is Err ==> final(self).work_map() == old(self).work_map())
                    &&& (r is Err && !conflict && same ==> r->Err_0@ == display_of(destv) + ": "@
                        + "Source and destination are the same"@ && ctx_records(
                        *final(ctx),
                        dv(old(self).args@),
                        top@,
                    ))
                    &&& (r is Err && conflict ==> *final(ctx) == *old(ctx))
                }))
                &&& (!fired0 && !skipped && !has_entry(fsv, pv) ==> r is Err && r->Err_0@
                    == display_of(pv) + ": "@ + "No such file or directory"@ && ctx_records(
                    *final(ctx),
                    dv(old(self).args@),
                    top@,
                ) && final(self).work_map() == old(self).work_map()
                    && final(self).visited == old(self).visited
                    && final(self).total_size == old(self).total_size
                    && final(self).warnings == old(self).warnings)
            }),
        decreases depth_measure(fs.entries@, path.pv()),
    {
        let ghost fsv = fs.entries@;
        let en = fs.entries.len();
        proof {
            assert(fsv.len() == en as int);
        }
        let ghost clean = collect_clean(fsv, *old(self), *old(token), parent.pv(), path.pv());
        proof {
            if clean {
                let w = choose|w: int| 0 <= w < fsv.len() && fsv[w].path.pv() == path.pv();
                assert(path.pv().1.take(path.pv().1.len() as int) =~= path.pv().1);
                assert(desc(fsv, w, path.pv()));
            }
        }
        if token.poll() {
            return Result::Ok(false);
        }
        let is_symlink = match fs.lookup(path) {
            Option::Some(i) => matches!(&fs.entries[i].kind, FileKind::Symlink { .. }),
            Option::None => false,
        };
        if self.ignore_links && is_symlink {
            return Result::Ok(true);
        }
        let hidden = match path.file_name() {
            Option::Some(n) => {
                let nm = n.clone();
                str_starts_with(nm.as_str(), ".")
            },
            Option::None => false,
        };
        if self.no_hidden && hidden {
            return Result::Ok(true);
        }
        if is_symlink {
            let target = match dereference_path(path, fs, cwd) {
                Result::Ok(t) => t,
                Result::Err(e) => {
                    let msg = self.error(ctx, top, path, "Could not get link target");
                    return Result::Err(msg);
                },
            };
            match self.add_link(fs, ctx, top, parent, path, &target) {
                Result::Ok(u) => {
                    return Result::Ok(true);
                },
                Result::Err(m) => {
                    return Result::Err(m);
                },
            }
        }
        let dir_idx = match fs.lookup(path) {
            Option::Some(i) => {
                if matches!(&fs.entries[i].kind, FileKind::Directory) {
                    Option::Some(i)
                } else {
                    Option::None
                }
            },
            Option::None => Option::None,
        };
        match dir_idx {
            Option::Some(di) => {
                if !self.recursive {
                    let shown = display_path(path);
                    let w = concat3(shown.as_str(), ": ", "Is a directory");
                    let ghost w0 = dv(self.warnings@);
                    let ghost wv = w@;
                    self.warnings.push(w);
                    proof {
                        assert(dv(self.warnings@) =~= w0.push(wv));
                    }
                    return Result::Ok(true);
                }
                let canonical = fs.entries[di].canon.clone();
                if self.visited_contains(&canonical) {
                    proof {
                        if clean {
                            assert(!visited_has(
                                old(self).visited@,
                                fsv[di as int].canon.pv(),
                            ));
                            assert(false);
                        }
                    }
                    return Result::Ok(true);
                }
                let ghost vis0 = self.visited@;
                self.visited.push(canonical);
                proof {
                    assert(vis0.is_prefix_of(self.visited@)) by {
                        assert(vis0 =~= self.visited@.take(vis0.len() as int));
                    }
                    assert(entry_at(fsv, path.pv()) == fsv[di as int]) by {
                        let w = choose|w: int| 0 <= w < fsv.len() && fsv[w].path.pv() == path.pv();
                        assert(fsv[w] == fsv[di as int]);
                    }
                    assert(visited_has(self.visited@, canon_of(fsv, path.pv()))) by {
                        assert(self.visited@[vis0.len() as int].pv() == fsv[di as int].canon.pv());
                    }
                    assert forall|p2: PathV| visited_has(self.visited@, p2) && !visited_has(
                        vis0,
                        p2,
                    ) implies p2 == fsv[di as int].canon.pv() by {
                        let w = choose|w: int|
                            0 <= w < self.visited@.len() && self.visited@[w].pv() == p2;
                        if w < vis0.len() {
                            assert(vis0[w].pv() == p2);
                        }
                    }
                }
                self.add_create_dir(fs, top, parent, path);
                let kids = fs.child_indices(path);
                let nk = kids.len();
                proof {
                    reveal(kids_sum_from);
                    assert(kids_sum_from(fsv, kids@, 0, 0) == 0);
                    assert(old(self).visited@ == vis0);
                    assert(old(self).visited@.is_prefix_of(self.visited@)) by {
                        assert(old(self).visited@ =~= self.visited@.take(
                            old(self).visited@.len() as int,
                        ));
                    }
                }
                let mut k: usize = 0;
                while k < nk
                    invariant
                        nk == kids@.len(),
                        k <= nk,
                        self.inv(fsv),
                        config_unchanged(*old(self), *self),
                        self.dest == old(self).dest,
                        token.fires_after == old(token).fires_after,
                        forall|k2: PathV|
                            old(self).work_map().contains_key(k2) ==> self.work_map().contains_key(
                                k2,
                            ),
                        old(self).visited@.is_prefix_of(self.visited@),
                        old(self).total_size <= self.total_size,
                        clean ==> self.total_size == clamp_u64(
                            old(self).total_size + kids_sum_from(fsv, kids@, k as int, 0),
                        ),
                        clean ==> ({
                            &&& (forall|i: int|
                                handled(fsv, path.pv(), kids@, k as int, i)
                                    ==> self.work_map().contains_key(
                                    resolve_dest_spec(
                                        fsv,
                                        old(self).dest.pv(),
                                        parent.pv(),
                                        (#[trigger] fsv[i].path).pv(),
                                    ),
                                ) && self.work_map()[resolve_dest_spec(
                                    fsv,
                                    old(self).dest.pv(),
                                    parent.pv(),
                                    fsv[i].path.pv(),
                                )] == mirror_iv(top@, fsv[i]))
                            &&& work_localized(
                                fsv,
                                old(self).work_map(),
                                self.work_map(),
                                old(self).dest.pv(),
                                parent.pv(),
                                path.pv(),
                            )
                            &&& (forall|p2: PathV|
                                visited_has(self.visited@, p2) && !visited_has(
                                    old(self).visited@,
                                    p2,
                                ) ==> exists|i: int|
                                    handled(fsv, path.pv(), kids@, k as int, i) && (
                                    #[trigger] fsv[i].canon).pv() == p2)
                        }),
                    decreases nk - k,
                {
                    let idx = kids[k];
                    let child = fs.entries[idx].path.clone();
                    proof {
                        lemma_child_desc(child.pv(), path.pv());
                        lemma_max_parts(fsv, idx as int);
                    }
                    let ghost before = *self;
                    let ghost tok_before = *token;
                    proof {
                        if clean {
                            assert(descendant_of(path.pv(), parent.pv())) by {
                                assert(path.pv().1.take(parent.pv().1.len() as int) =~= parent.pv().1);
                            }
                            assert(collect_clean(fsv, *self, *token, parent.pv(), child.pv())) by {
                                assert(parent.pv().1.is_prefix_of(child.pv().1)) by {
                                    lemma_desc_trans(child.pv(), path.pv(), parent.pv());
                                    assert(child.pv().1.take(parent.pv().1.len() as int)
                                        =~= parent.pv().1);
                                }
                                assert(parent.pv().1.len() < child.pv().1.len());
                                assert forall|i: int| desc(fsv, i, child.pv())
                                    implies !visited_has(
                                    self.visited@,
                                    (#[trigger] fsv[i].canon).pv(),
                                ) by {
                                    lemma_desc_trans(fsv[i].path.pv(), child.pv(), path.pv());
                                    if visited_has(self.visited@, fsv[i].canon.pv()) {
                                        if visited_has(old(self).visited@, fsv[i].canon.pv()) {
                                            assert(false);
                                        } else {
                                            let j = choose|j: int|
                                                handled(fsv, path.pv(), kids@, k as int, j) && (
                                                #[trigger] fsv[j].canon).pv() == fsv[
                                                    i
                                                ].canon.pv();
                                            assert(0 <= j < fsv.len());
                                            if i != j {
                                                if i < j {
                                                    assert(fsv[i].canon.pv() != fsv[
                                                        j
                                                    ].canon.pv());
                                                } else {
                                                    assert(fsv[j].canon.pv() != fsv[
                                                        i
                                                    ].canon.pv());
                                                }
                                                assert(false);
                                            } else {
                                                assert(paths_unique(fsv));
                                                lemma_not_handled(
                                                    fsv,
                                                    path.pv(),
                                                    kids@,
                                                    k as int,
                                                    i,
                                                );
                                                assert(false);
                                            }
                                        }
                                    }
                                }
                                assert forall|i: int, d: int|
                                    desc(fsv, i, child.pv()) && child.pv().1.len() <= d < fsv[
                                        i
                                    ].path.pv().1.len() implies has_entry(
                                    fsv,
                                    (child.pv().0, #[trigger] fsv[i].path.pv().1.take(d)),
                                ) && entry_at(
                                    fsv,
                                    (child.pv().0, fsv[i].path.pv().1.take(d)),
                                ).kind is Directory by {
                                    lemma_desc_trans(fsv[i].path.pv(), child.pv(), path.pv());
                                }
                                assert forall|i: int|
                                    desc(fsv, i, child.pv()) && !((#[trigger] fsv[i].kind)
                                        is Directory) implies !same_file(
                                    fsv,
                                    resolve_dest_spec(
                                        fsv,
                                        self.dest.pv(),
                                        parent.pv(),
                                        fsv[i].path.pv(),
                                    ),
                                    fsv[i].path.pv(),
                                ) by {
                                    lemma_desc_trans(fsv[i].path.pv(), child.pv(), path.pv());
                                }
                            }
                        }
                    }
                    proof {
                        if clean {
                            assert(collect_clean(fsv, before, tok_before, parent.pv(), child.pv()));
                        }
                    }
                    let res = self.collect_path_info(fs, ctx, token, cwd, top, parent, &child);
                    proof {
                        if clean {
                            assert(collect_clean(fsv, before, tok_before, parent.pv(), child.pv()));
                            assert(res == Result::<bool, String>::Ok(true));
                        }
                    }
                    match res {
                        Result::Ok(more) => {
                            if !more {
                                proof {
                                    if clean {
                                        assert(res == Result::<bool, String>::Ok(true));
                                        assert(false);
                                    }
                                }
                                return Result::Ok(false);
                            }
                        },
                        Result::Err(m) => {
                            proof {
                                if clean {
                                    assert(false);
                                }
                            }
                            return Result::Err(m);
                        },
                    }
                    proof {
                        if clean {
                            reveal(kids_sum_from);
                            lemma_tree_size_nonneg(fsv, child.pv(), 0);
                            lemma_kids_nonneg(fsv, kids@, k as int);
                            assert(kids_sum_from(fsv, kids@, k + 1, 0) == kids_sum_from(
                                fsv,
                                kids@,
                                k as int,
                                0,
                            ) + tree_size_from(fsv, fsv[kids@[k as int] as int].path.pv(), 0));
                            assert(fsv[kids@[k as int] as int].path.pv() == child.pv());
                            let ghost s1 = kids_sum_from(fsv, kids@, k as int, 0);
                            let ghost t1 = tree_size_from(fsv, child.pv(), 0);
                            assert(before.total_size == clamp_u64(old(self).total_size + s1));
                            assert(self.total_size == clamp_u64(before.total_size + t1));
                            assert(clamp_u64(clamp_u64(old(self).total_size + s1) as int + t1)
                                == clamp_u64(old(self).total_size + s1 + t1));
                            assert(self.total_size == clamp_u64(
                                old(self).total_size + kids_sum_from(fsv, kids@, k + 1, 0),
                            ));
                        }
                        assert(old(self).visited@.is_prefix_of(self.visited@)) by {
                            assert(old(self).visited@.is_prefix_of(before.visited@));
                            assert(before.visited@.is_prefix_of(self.visited@));
                            assert(old(self).visited@ =~= self.visited@.take(
                                old(self).visited@.len() as int,
                            ));
                        }
                        if clean {
                            assert(paths_unique(fsv));
                            assert forall|i: int|
                                handled(fsv, path.pv(), kids@, k + 1, i)
                                    implies self.work_map().contains_key(
                                resolve_dest_spec(
                                    fsv,
                                    old(self).dest.pv(),
                                    parent.pv(),
                                    (#[trigger] fsv[i].path).pv(),
                                ),
                            ) && self.work_map()[resolve_dest_spec(
                                fsv,
                                old(self).dest.pv(),
                                parent.pv(),
                                fsv[i].path.pv(),
                            )] == mirror_iv(top@, fsv[i]) by {
                                let rdi = resolve_dest_spec(
                                    fsv,
                                    old(self).dest.pv(),
                                    parent.pv(),
                                    fsv[i].path.pv(),
                                );
                                if desc(fsv, i, child.pv()) {
                                    assert(covered_subtree(
                                        fsv,
                                        self.work_map(),
                                        before.dest.pv(),
                                        parent.pv(),
                                        child.pv(),
                                        top@,
                                    ));
                                    assert(self.work_map().contains_key(rdi)
                                        && self.work_map()[rdi] == mirror_iv(top@, fsv[i]));
                                } else {
                                    assert(handled(fsv, path.pv(), kids@, k as int, i)) by {
                                        if fsv[i].path.pv() != path.pv() {
                                            let q = choose|q: int|
                                                0 <= q < k + 1 && descendant_of(
                                                    fsv[i].path.pv(),
                                                    fsv[kids@[q] as int].path.pv(),
                                                );
                                            assert(q < k);
                                        }
                                    }
                                    assert(before.work_map().contains_key(rdi)
                                        && before.work_map()[rdi] == mirror_iv(top@, fsv[i]));
                                    if !self.work_map().contains_key(rdi) || self.work_map()[rdi]
                                        != before.work_map()[rdi] {
                                        assert(self.work_map().contains_key(rdi));
                                        assert(work_localized(
                                            fsv,
                                            before.work_map(),
                                            self.work_map(),
                                            before.dest.pv(),
                                            parent.pv(),
                                            child.pv(),
                                        ));
                                        assert(exists|e: int|
                                            desc(fsv, e, child.pv()) && rdi == resolve_dest_spec(
                                                fsv,
                                                before.dest.pv(),
                                                parent.pv(),
                                                fsv[e].path.pv(),
                                            ));
                                        let e = choose|e: int|
                                            desc(fsv, e, child.pv()) && rdi == resolve_dest_spec(
                                                fsv,
                                                before.dest.pv(),
                                                parent.pv(),
                                                fsv[e].path.pv(),
                                            );
                                        assert(descendant_of(fsv[i].path.pv(), path.pv()));
                                        assert(descendant_of(fsv[e].path.pv(), path.pv())) by {
                                            lemma_desc_trans(
                                                fsv[e].path.pv(),
                                                child.pv(),
                                                path.pv(),
                                            );
                                        }
                                        assert(descendant_of(path.pv(), parent.pv())) by {
                                            assert(path.pv().1.take(parent.pv().1.len() as int)
                                                =~= parent.pv().1);
                                        }
                                        lemma_desc_trans(fsv[i].path.pv(), path.pv(), parent.pv());
                                        lemma_desc_trans(fsv[e].path.pv(), path.pv(), parent.pv());
                                        lemma_rd_injective(
                                            fsv,
                                            old(self).dest.pv(),
                                            parent.pv(),
                                            fsv[i].path.pv(),
                                            fsv[e].path.pv(),
                                        );
                                        if i != e {
                                            if i < e {
                                                assert(fsv[i].path.pv() != fsv[e].path.pv());
                                            } else {
                                                assert(fsv[e].path.pv() != fsv[i].path.pv());
                                            }
                                            assert(false);
                                        }
                                        lemma_not_handled(fsv, path.pv(), kids@, k as int, i);
                                        assert(false);
                                    }
                                }
                            }
                            assert(work_localized(
                                fsv,
                                before.work_map(),
                                self.work_map(),
                                before.dest.pv(),
                                parent.pv(),
                                child.pv(),
                            ));
                            assert(work_localized(
                                fsv,
                                old(self).work_map(),
                                self.work_map(),
                                old(self).dest.pv(),
                                parent.pv(),
                                path.pv(),
                            )) by {
                                assert forall|k2: PathV|
                                    #![trigger self.work_map().contains_key(k2)]
                                    self.work_map().contains_key(k2) && (!old(
                                        self,
                                    ).work_map().contains_key(k2) || self.work_map()[k2] != old(
                                        self,
                                    ).work_map()[k2]) implies exists|i: int|
                                    desc(fsv, i, path.pv()) && k2 == resolve_dest_spec(
                                        fsv,
                                        old(self).dest.pv(),
                                        parent.pv(),
                                        fsv[i].path.pv(),
                                    ) by {
                                    if before.work_map().contains_key(k2) && self.work_map()[k2]
                                        == before.work_map()[k2] {
                                        assert(before.work_map().contains_key(k2) && (!old(
                                            self,
                                        ).work_map().contains_key(k2) || before.work_map()[k2]
                                            != old(self).work_map()[k2]));
                                    } else {
                                        let e = choose|e: int|
                                            desc(fsv, e, child.pv()) && k2 == resolve_dest_spec(
                                                fsv,
                                                before.dest.pv(),
                                                parent.pv(),
                                                fsv[e].path.pv(),
                                            );
                                        lemma_desc_trans(fsv[e].path.pv(), child.pv(), path.pv());
                                        assert(desc(fsv, e, path.pv()));
                                    }
                                }
                            }
                            assert forall|p2: PathV|
                                visited_has(self.visited@, p2) && !visited_has(
                                    old(self).visited@,
                                    p2,
                                ) implies exists|i: int|
                                handled(fsv, path.pv(), kids@, k + 1, i) && (
                                #[trigger] fsv[i].canon).pv() == p2 by {
                                if visited_has(before.visited@, p2) {
                                    let i = choose|i: int|
                                        handled(fsv, path.pv(), kids@, k as int, i) && (
                                        #[trigger] fsv[i].canon).pv() == p2;
                                    assert(handled(fsv, path.pv(), kids@, k + 1, i));
                                } else {
                                    assert(visited_localized(
                                        fsv,
                                        before.visited@,
                                        self.visited@,
                                        child.pv(),
                                    ));
                                    assert(visited_has(before.visited@, p2) || exists|i: int|
                                        desc(fsv, i, child.pv()) && (#[trigger] fsv[i].canon).pv()
                                            == p2);
                                    let i = choose|i: int|
                                        desc(fsv, i, child.pv()) && (#[trigger] fsv[i].canon).pv()
                                            == p2;
                                    lemma_desc_trans(fsv[i].path.pv(), child.pv(), path.pv());
                                    assert(descendant_of(
                                        fsv[i].path.pv(),
                                        fsv[kids@[k as int] as int].path.pv(),
                                    ));
                                    assert(handled(fsv, path.pv(), kids@, k + 1, i));
                                }
                            }
                        }
                    }
                    k += 1;
                }
                proof {
                    if clean {
                        assert forall|i: int| desc(fsv, i, path.pv())
                            implies self.work_map().contains_key(
                            resolve_dest_spec(
                                fsv,
                                old(self).dest.pv(),
                                parent.pv(),
                                (#[trigger] fsv[i].path).pv(),
                            ),
                        ) && self.work_map()[resolve_dest_spec(
                            fsv,
                            old(self).dest.pv(),
                            parent.pv(),
                            fsv[i].path.pv(),
                        )] == mirror_iv(top@, fsv[i]) by {
                            let e = fsv[i].path.pv();
                            if e.1.len() == path.pv().1.len() {
                                assert(e.1 =~= path.pv().1);
                                assert(e == path.pv());
                                assert(handled(fsv, path.pv(), kids@, nk as int, i));
                            } else {
                                let pl1 = path.pv().1.len() as int + 1;
                                let a = (path.pv().0, e.1.take(pl1));
                                if e.1.len() == pl1 {
                                    assert(e.1.take(pl1) =~= e.1);
                                    assert(a == e);
                                    assert(has_entry(fsv, a)) by {
                                        assert(fsv[i].path.pv() == a);
                                    }
                                } else {
                                    assert(fsv[i].path.pv().1.take(pl1) == a.1);
                                    assert(has_entry(fsv, a));
                                }
                                let ai = choose|ai: int|
                                    0 <= ai < fsv.len() && fsv[ai].path.pv() == a;
                                assert(is_child_of(fsv[ai].path.pv(), path.pv())) by {
                                    assert(a.1.drop_last() =~= path.pv().1) by {
                                        assert forall|w: int| 0 <= w < path.pv().1.len()
                                            implies a.1.drop_last()[w] == path.pv().1[w] by {
                                            assert(e.1.take(path.pv().1.len() as int)[w]
                                                == path.pv().1[w]);
                                            assert(e.1.take(path.pv().1.len() as int + 1)[w] == e.1[w]);
                                        }
                                    }
                                }
                                assert(kids@.contains(ai as usize));
                                let q = choose|q: int|
                                    0 <= q < kids@.len() && kids@[q] == ai as usize;
                                assert(descendant_of(e, fsv[ai].path.pv())) by {
                                    assert(e.1.take(a.1.len() as int) =~= a.1);
                                }
                                assert(ai as usize as int == ai);
                                assert(kids@[q] as int == ai);
                                assert(descendant_of(e, fsv[kids@[q] as int].path.pv()));
                                assert(handled(fsv, path.pv(), kids@, nk as int, i));
                            }
                        }
                        assert(covered_subtree(
                            fsv,
                            self.work_map(),
                            old(self).dest.pv(),
                            parent.pv(),
                            path.pv(),
                            top@,
                        ));
                        assert(paths_unique(fsv));
                        lemma_tree_size_partition(fsv, path.pv(), kids@, 0);
                        assert(kids_sum_from(fsv, kids@, kids@.len() as int, 0) == tree_size_from(
                            fsv,
                            path.pv(),
                            0,
                        ));
                        assert(self.total_size == clamp_u64(
                            old(self).total_size + kids_sum_from(fsv, kids@, nk as int, 0),
                        ));
                        assert(nk as int == kids@.len() as int);
                        assert(self.total_size == clamp_u64(
                            old(self).total_size + tree_size_from(fsv, path.pv(), 0),
                        ));
                        assert(visited_localized(
                            fsv,
                            old(self).visited@,
                            self.visited@,
                            path.pv(),
                        )) by {
                            assert forall|p2: PathV|
                                #![trigger visited_has(self.visited@, p2)]
                                visited_has(self.visited@, p2) && !visited_has(
                                    old(self).visited@,
                                    p2,
                                ) implies exists|i: int|
                                desc(fsv, i, path.pv()) && (#[trigger] fsv[i].canon).pv() == p2 by {
                                let i = choose|i: int|
                                    handled(fsv, path.pv(), kids@, nk as int, i) && (
                                    #[trigger] fsv[i].canon).pv() == p2;
                                assert(desc(fsv, i, path.pv()));
                            }
                        }
                    }
                }
                Result::Ok(true)
            },
            Option::None => {
                match fs.lookup(path) {
                    Option::None => {
                        let msg = self.error(ctx, top, path, "No such file or directory");
                        Result::Err(msg)
                    },
                    Option::Some(fi) => {
                        let size = match &fs.entries[fi].kind {
                            FileKind::Regular { size } => *size,
                            _ => 0u64,
                        };
                        if self.total_size <= u64::MAX - size {
                            self.total_size = self.total_size + size;
                        } else {
                            self.total_size = u64::MAX;
                        }
                        let res = self.add_copy(fs, ctx, top, parent, path);
                        proof {
                            if clean {
                                assert(entry_at(fsv, path.pv()) == fsv[fi as int]) by {
                                    let w = choose|w: int|
                                        0 <= w < fsv.len() && fsv[w].path.pv() == path.pv();
                                    assert(fsv[w] == fsv[fi as int]);
                                }
                                assert(desc(fsv, fi as int, path.pv())) by {
                                    assert(path.pv().1.take(path.pv().1.len() as int)
                                        =~= path.pv().1);
                                }
                                assert forall|i: int| desc(fsv, i, path.pv()) implies i
                                    == fi as int by {
                                    if fsv[i].path.pv().1.len() > path.pv().1.len() {
                                        let pl = path.pv().1.len() as int;
                                        assert(has_entry(
                                            fsv,
                                            (path.pv().0, fsv[i].path.pv().1.take(pl)),
                                        ) && entry_at(
                                            fsv,
                                            (path.pv().0, fsv[i].path.pv().1.take(pl)),
                                        ).kind is Directory);
                                        assert((path.pv().0, fsv[i].path.pv().1.take(pl))
                                            == path.pv());
                                        assert(false);
                                    } else {
                                        assert(fsv[i].path.pv().1 =~= path.pv().1);
                                        assert(fsv[i].path.pv() == path.pv());
                                        if i < fi as int {
                                            assert(fsv[i].path.pv() != fsv[fi as int].path.pv());
                                            assert(false);
                                        } else if i > fi as int {
                                            assert(fsv[fi as int].path.pv() != fsv[i].path.pv());
                                            assert(false);
                                        }
                                    }
                                }
                                lemma_tree_size_single(fsv, path.pv(), 0, fi as int);
                                assert(tree_size_from(fsv, path.pv(), 0) == entry_size_at(
                                    fsv,
                                    fi as int,
                                ));
                                assert(entry_size_at(fsv, fi as int) == entry_size(
                                    fsv,
                                    path.pv(),
                                ) as int);
                            }
                        }
                        proof {
                            if clean {
                                let rdp = resolve_dest_spec(
                                    fsv,
                                    old(self).dest.pv(),
                                    parent.pv(),
                                    path.pv(),
                                );
                                assert(res is Ok);
                                assert(covered_subtree(
                                    fsv,
                                    self.work_map(),
                                    old(self).dest.pv(),
                                    parent.pv(),
                                    path.pv(),
                                    top@,
                                )) by {
                                    assert forall|i: int| desc(fsv, i, path.pv())
                                        implies self.work_map().contains_key(
                                        resolve_dest_spec(
                                            fsv,
                                            old(self).dest.pv(),
                                            parent.pv(),
                                            (#[trigger] fsv[i].path).pv(),
                                        ),
                                    ) && self.work_map()[resolve_dest_spec(
                                        fsv,
                                        old(self).dest.pv(),
                                        parent.pv(),
                                        fsv[i].path.pv(),
                                    )] == mirror_iv(top@, fsv[i]) by {
                                        assert(i == fi as int);
                                    }
                                }
                                assert(work_localized(
                                    fsv,
                                    old(self).work_map(),
                                    self.work_map(),
                                    old(self).dest.pv(),
                                    parent.pv(),
                                    path.pv(),
                                )) by {
                                    assert forall|k2: PathV|
                                        #![trigger self.work_map().contains_key(k2)]
                                        self.work_map().contains_key(k2) && (!old(
                                            self,
                                        ).work_map().contains_key(k2) || self.work_map()[k2]
                                            != old(self).work_map()[k2]) implies exists|i: int|
                                        desc(fsv, i, path.pv()) && k2 == resolve_dest_spec(
                                            fsv,
                                            old(self).dest.pv(),
                                            parent.pv(),
                                            fsv[i].path.pv(),
                                        ) by {
                                        if k2 != rdp {
                                            assert(false);
                                        } else {
                                            assert(desc(fsv, fi as int, path.pv()) && k2
                                                == resolve_dest_spec(
                                                fsv,
                                                old(self).dest.pv(),
                                                parent.pv(),
                                                fsv[fi as int].path.pv(),
                                            ));
                                        }
                                    }
                                }
                                assert(visited_localized(
                                    fsv,
                                    old(self).visited@,
                                    self.visited@,
                                    path.pv(),
                                ));
                            }
                        }
                        match res {
                            Result::Ok(u) => Result::Ok(true),
                            Result::Err(m) => Result::Err(m),
                        }
                    },
                }
            },
        }
    }
}


impl FileCopier {
    /// Resolves the destination and every top-level source, then walks
    /// each source in argument order. Top-level sources are always
    /// dereferenced, whatever the link options say. Returns `Ok(false)`
    /// when cancellation stopped the walk. On a link-free snapshot the
    /// destination ends up in its normalized, fully dereferenced form;
    /// and a single clean source tree is mirrored exactly into the
    /// plan.
    #[verifier::loop_isolation(false)]
    pub fn collect_src_info(
        &mut self,
        fs: &FsSnapshot,
        ctx: &mut Context,
        token: &mut CancelToken,
        cwd: &FsPath,
    ) -> (r: Result<bool, String>)
        requires
            fs.wf(),
            cwd.absolute,
            old(self).inv(fs.entries@),
            old(self).srcs@.len() > 0,
        ensures
            final(self).inv(fs.entries@),
            config_unchanged(*old(self), *final(self)),
            final(token).fires_after == old(token).fires_after,
            final(self).total_size >= old(self).total_size,
            forall|k: PathV|
                old(self).work_map().contains_key(k) ==> final(self).work_map().contains_key(k),
            walk_clean(fs.entries@, cwd.pv(), old(self).dest.pv()) ==> final(self).dest.pv()
                == normalize(cwd.pv(), old(self).dest.pv()),
            link_free(fs.entries@) ==> final(self).dest.pv() == normalize(
                cwd.pv(),
                old(self).dest.pv(),
            ),
            old(token).fired() && walk_clean(
                fs.entries@,
                cwd.pv(),
                crate::path::path_of_string(old(self).srcs@[0]@),
            ) && walk_clean(fs.entries@, cwd.pv(), old(self).dest.pv()) && normalize(
                cwd.pv(),
                crate::path::path_of_string(old(self).srcs@[0]@),
            ).1.len() > 0 ==> r == Result::<bool, String>::Ok(false),
            ({
                let fsv = fs.entries@;
                let root = normalize(cwd.pv(), crate::path::path_of_string(old(self).srcs@[0]@));
                walk_clean(fsv, cwd.pv(), crate::path::path_of_string(old(self).srcs@[0]@))
                    && walk_clean(fsv, cwd.pv(), old(self).dest.pv()) && !old(token).fired()
                    && root.1.len() > 0 && !has_entry(fsv, root) && !(old(self).no_hidden
                    && hidden_name(root)) ==> ({
                    &&& r is Err
                    &&& r->Err_0@ == display_of(root) + ": "@ + "No such file or directory"@
                    &&& ctx_records(*final(ctx), dv(old(self).args@), old(self).srcs@[0]@)
                    &&& final(self).work_map() == old(self).work_map()
                    &&& final(self).visited == old(self).visited
                    &&& final(self).total_size == old(self).total_size
                })
            }),
            ({
                let fsv = fs.entries@;
                let dest1 = normalize(cwd.pv(), old(self).dest.pv());
                let root = normalize(cwd.pv(), crate::path::path_of_string(old(self).srcs@[0]@));
                let parentv = if root.1.len() > 0 {
                    (root.0, root.1.drop_last())
                } else {
                    root
                };
                old(self).srcs@.len() == 1 && root.1.len() > 0 && collect_clean_at(
                    fsv,
                    dest1,
                    old(self).recursive,
                    old(self).no_hidden,
                    old(self).visited@,
                    *old(token),
                    parentv,
                    root,
                ) ==> ({
                    &&& r == Result::<bool, String>::Ok(true)
                    &&& covered_subtree(
                        fsv,
                        final(self).work_map(),
                        dest1,
                        parentv,
                        root,
                        old(self).srcs@[0]@,
                    )
                    &&& work_localized(
                        fsv,
                        old(self).work_map(),
                        final(self).work_map(),
                        dest1,
                        parentv,
                        root,
                    )
                    &&& visited_localized(
                        fsv,
                        old(self).visited@,
                        final(self).visited@,
                        root,
                    )
                    &&& final(self).total_size == clamp_u64(
                        old(self).total_size + tree_size_from(fsv, root, 0),
                    )
                })
            }),
    {
        let ghost fsv = fs.entries@;
        let ghost dest1 = normalize(cwd.pv(), self.dest.pv());
        let ghost root0 = normalize(cwd.pv(), crate::path::path_of_string(self.srcs@[0]@));
        let ghost parent0 = if root0.1.len() > 0 {
            (root0.0, root0.1.drop_last())
        } else {
            root0
        };
        let ghost wc0 = walk_clean(fsv, cwd.pv(), crate::path::path_of_string(self.srcs@[0]@));
        let ghost wcd = walk_clean(fsv, cwd.pv(), self.dest.pv());
        proof {
            if link_free(fsv) {
                lemma_link_free_walk_clean(fsv, cwd.pv(), crate::path::path_of_string(
                    self.srcs@[0]@,
                ));
                lemma_link_free_walk_clean(fsv, cwd.pv(), self.dest.pv());
            }
        }
        let ghost missing0 = wc0 && wcd && !token.fired() && root0.1.len() > 0 && !has_entry(
            fsv,
            root0,
        ) && !(self.no_hidden && hidden_name(root0));
        let ghost single = self.srcs@.len() == 1 && root0.1.len() > 0 && collect_clean_at(
            fsv,
            dest1,
            self.recursive,
            self.no_hidden,
            self.visited@,
            *token,
            parent0,
            root0,
        );
        let resolved_dest = match dereference_path(&self.dest, fs, cwd) {
            Result::Ok(d) => d,
            Result::Err(e) => {
                proof {
                    if wcd {
                        assert(false);
                    }
                }
                let shown = display_path(&self.dest);
                return Result::Err(concat3(shown.as_str(), ": ", "Could not resolve path"));
            },
        };
        self.dest = resolved_dest;
        let ghost w0 = self.work_map();
        let ghost vis0 = self.visited@;
        let n = self.srcs.len();
        let mut i: usize = 0;
        while i < n
            invariant
                n == self.srcs@.len(),
                i <= n,
                fs.wf(),
                cwd.absolute,
                self.inv(fs.entries@),
                config_unchanged(*old(self), *self),
                token.fires_after == old(token).fires_after,
                self.total_size >= old(self).total_size,
                forall|k: PathV|
                    old(self).work_map().contains_key(k) ==> self.work_map().contains_key(k),
                wcd ==> self.dest.pv() == dest1,
                w0 == old(self).work_map(),
                vis0 == old(self).visited@,
                i == 0 ==> *token == *old(token),
                i == 0 ==> self.work_map() == w0 && self.visited == old(self).visited
                    && self.total_size == old(self).total_size,
                old(token).fired() && wc0 && wcd && root0.1.len() > 0 ==> i == 0,
                missing0 ==> i == 0,
                single ==> (i > 0 ==> covered_subtree(
                    fsv,
                    self.work_map(),
                    dest1,
                    parent0,
                    root0,
                    old(self).srcs@[0]@,
                ) && work_localized(fsv, w0, self.work_map(), dest1, parent0, root0)
                    && visited_localized(fsv, vis0, self.visited@, root0)
                    && self.total_size == clamp_u64(
                    old(self).total_size + tree_size_from(fsv, root0, 0),
                )),
            decreases n - i,
        {
            let ghost before = *self;
            let ghost tok_before = *token;
            let srcstr = self.srcs[i].clone();
            let parsed = crate::path::parse_path(srcstr.as_str());
            let path = match dereference_path(&parsed, fs, cwd) {
                Result::Ok(p) => p,
                Result::Err(e) => {
                    proof {
                        if i == 0 && wc0 {
                            assert(false);
                        }
                        if link_free(fsv) {
                            assert(false);
                        }
                    }
                    let msg = self.error(ctx, srcstr.as_str(), &parsed, "Could not resolve path");
                    return Result::Err(msg);
                },
            };
            if path.parts.len() == 0 {
                proof {
                    if single && i == 0 {
                        assert(path.pv() == root0);
                        assert(false);
                    }
                    if old(token).fired() && wc0 && wcd && i == 0 && root0.1.len() > 0 {
                        assert(path.pv() == root0);
                        assert(false);
                    }
                    if missing0 && i == 0 {
                        assert(path.pv() == root0);
                        assert(false);
                    }
                }
                let msg = self.error(ctx, srcstr.as_str(), &path, "Invalid source path");
                return Result::Err(msg);
            }
            let mut parent = path.clone();
            parent.pop_part();
            proof {
                if single && i == 0 {
                    assert(srcstr@ == old(self).srcs@[0]@);
                    assert(path.pv() == root0);
                    assert(parent.pv() == parent0) by {
                        assert(parent.pv().1 =~= root0.1.drop_last());
                    }
                    assert(collect_clean(fsv, *self, *token, parent.pv(), path.pv()));
                }
            }
            let more = match self.collect_path_info(
                fs,
                ctx,
                token,
                cwd,
                srcstr.as_str(),
                &parent,
                &path,
            ) {
                Result::Ok(b) => b,
                Result::Err(m) => {
                    proof {
                        if single && i == 0 {
                            assert(false);
                        }
                        if old(token).fired() && wc0 && wcd && i == 0 && root0.1.len() > 0 {
                            assert(false);
                        }
                        if missing0 && i == 0 {
                            assert(path.pv() == root0);
                            assert(m@ == display_of(root0) + ": "@
                                + "No such file or directory"@);
                            assert(self.work_map() == w0);
                            assert(ctx_records(*ctx, dv(old(self).args@), old(self).srcs@[0]@))
                                by {
                                assert(srcstr@ == old(self).srcs@[0]@);
                                assert(dv(self.args@) =~= dv(old(self).args@));
                            }
                        }
                    }
                    return Result::Err(m);
                },
            };
            if !more {
                proof {
                    if single && i == 0 {
                        assert(false);
                    }
                }
                return Result::Ok(false);
            }
            proof {
                if old(token).fired() && wc0 && wcd && i == 0 && root0.1.len() > 0 {
                    assert(path.pv() == root0);
                    assert(false);
                }
                if missing0 && i == 0 {
                    assert(path.pv() == root0);
                    assert(false);
                }
                if single && i == 0 {
                    assert(collect_clean(fsv, before, tok_before, parent.pv(), path.pv()));
                    assert(covered_subtree(
                        fsv,
                        self.work_map(),
                        dest1,
                        parent0,
                        root0,
                        old(self).srcs@[0]@,
                    ));
                }
            }
            i += 1;
        }
        Result::Ok(true)
    }
}

} // verus!
