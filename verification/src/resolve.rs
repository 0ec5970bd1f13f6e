//! Component-by-component symbolic-link resolution over a filesystem
//! snapshot, memoized so that a link cycle degenerates into a cache hit.
//! The walk restarts on every substitution, and a pathological chain of
//! links that keeps producing new path forms could restart forever; a
//! budget on substitutions turns that case into a resolution error.

use vstd::prelude::*;
use crate::path::{FsPath, PathV, path_eq};
use crate::fsmodel::{FsSnapshot, FsEntry, FileKind, has_entry, entry_at};
use crate::strutil::str_eq;

verus! {

/// The most substitutions one resolution may make before it gives up.
pub const SUBSTITUTION_LIMIT: usize = 4096;

/// One step of resolution: a path that the snapshot shows as a symbolic
/// link resolves to its raw target; anything else resolves to itself.
pub open spec fn one_step(fs: Seq<FsEntry>, p: PathV) -> PathV {
    if has_entry(fs, p) {
        match entry_at(fs, p).kind {
            FileKind::Symlink { target } => target.pv(),
            _ => p,
        }
    } else {
        p
    }
}

/// No entry of the snapshot is a symbolic link.
pub open spec fn link_free(fs: Seq<FsEntry>) -> bool {
    forall|i: int| 0 <= i < fs.len() ==> !(#[trigger] fs[i].kind is Symlink)
}

/// One folding step of path normalization.
pub open spec fn fold_step(acc: Seq<Seq<char>>, c: Seq<char>) -> Seq<Seq<char>> {
    if c == "."@ {
        acc
    } else if c == ".."@ {
        if acc.len() > 0 {
            acc.drop_last()
        } else {
            acc
        }
    } else {
        acc.push(c)
    }
}

/// Folding distributes over appending one component at the end.
pub proof fn lemma_normalize_snoc(acc: Seq<Seq<char>>, t: Seq<Seq<char>>, c: Seq<char>, j: int)
    requires
        0 <= j <= t.len(),
    ensures
        normalize_from(acc, t.push(c), j) == fold_step(normalize_from(acc, t, j), c),
    decreases t.len() - j,
{
    if j == t.len() {
        assert(t.push(c)[j] == c);
        assert(normalize_from(acc, t, j) == acc);
        if c == "."@ {
            assert(normalize_from(acc, t.push(c), j + 1) == acc);
        } else if c == ".."@ {
            if acc.len() > 0 {
                assert(normalize_from(acc.drop_last(), t.push(c), j + 1) == acc.drop_last());
            } else {
                assert(normalize_from(acc, t.push(c), j + 1) == acc);
            }
        } else {
            assert(normalize_from(acc.push(c), t.push(c), j + 1) == acc.push(c));
        }
    } else {
        assert(t.push(c)[j] == t[j]);
        if t[j] == "."@ {
            lemma_normalize_snoc(acc, t, c, j + 1);
        } else if t[j] == ".."@ {
            if acc.len() > 0 {
                lemma_normalize_snoc(acc.drop_last(), t, c, j + 1);
            } else {
                lemma_normalize_snoc(acc, t, c, j + 1);
            }
        } else {
            lemma_normalize_snoc(acc.push(t[j]), t, c, j + 1);
        }
    }
}

/// Component folding: `.` is skipped, `..` pops, anything else is kept.
pub open spec fn normalize_from(acc: Seq<Seq<char>>, comps: Seq<Seq<char>>, i: int) -> Seq<
    Seq<char>,
>
    decreases comps.len() - i,
{
    if i < 0 || i >= comps.len() {
        acc
    } else if comps[i] == "."@ {
        normalize_from(acc, comps, i + 1)
    } else if comps[i] == ".."@ {
        if acc.len() > 0 {
            normalize_from(acc.drop_last(), comps, i + 1)
        } else {
            normalize_from(acc, comps, i + 1)
        }
    } else {
        normalize_from(acc.push(comps[i]), comps, i + 1)
    }
}

/// What resolution returns when no links are involved: the path rooted
/// at the working directory (when relative), with `.` and `..` folded.
pub open spec fn normalize(cwd: PathV, p: PathV) -> PathV {
    if p.0 {
        (true, normalize_from(Seq::empty(), p.1, 0))
    } else {
        (cwd.0, normalize_from(cwd.1, p.1, 0))
    }
}

/// The accumulated prefix after folding the first `i` components of
/// `p` (rooted at `cwd` when relative).
pub open spec fn walk_prefix(cwd: PathV, p: PathV, i: int) -> PathV {
    if p.0 {
        (true, normalize_from(Seq::empty(), p.1.take(i), 0))
    } else {
        (cwd.0, normalize_from(cwd.1, p.1.take(i), 0))
    }
}

/// The walk of `p` meets no symbolic link: none of its accumulated
/// prefixes is one. Links elsewhere in the snapshot do not matter.
pub open spec fn walk_clean(fs: Seq<FsEntry>, cwd: PathV, p: PathV) -> bool {
    forall|i: int|
        0 <= i <= p.1.len() ==> one_step(fs, #[trigger] walk_prefix(cwd, p, i)) == walk_prefix(
            cwd,
            p,
            i,
        )
}

/// On a snapshot without links, every walk is clean.
pub proof fn lemma_link_free_walk_clean(fs: Seq<FsEntry>, cwd: PathV, p: PathV)
    requires
        link_free(fs),
    ensures
        walk_clean(fs, cwd, p),
{
    assert forall|i: int| 0 <= i <= p.1.len() implies one_step(
        fs,
        #[trigger] walk_prefix(cwd, p, i),
    ) == walk_prefix(cwd, p, i) by {
        let q = walk_prefix(cwd, p, i);
        if has_entry(fs, q) {
            let w = choose|w: int| 0 <= w < fs.len() && fs[w].path.pv() == q;
            assert(!(fs[w].kind is Symlink));
        }
    }
}

/// Every cached resolution agrees with the snapshot.
pub open spec fn cache_ok(fs: Seq<FsEntry>, cache: Seq<(FsPath, FsPath)>) -> bool {
    forall|i: int|
        0 <= i < cache.len() ==> (#[trigger] cache[i].1).pv() == one_step(fs, cache[i].0.pv())
}

/// Looks up a path in the resolution cache.
fn cache_get(cache: &Vec<(FsPath, FsPath)>, p: &FsPath) -> (r: Option<FsPath>)
    ensures
        match r {
            Option::Some(v) => exists|i: int|
                0 <= i < cache@.len() && (#[trigger] cache@[i].0).pv() == p.pv() && cache@[i].1.pv()
                    == v.pv(),
            Option::None => forall|i: int|
                0 <= i < cache@.len() ==> (#[trigger] cache@[i].0).pv() != p.pv(),
        },
{
    let n = cache.len();
    let mut i: usize = 0;
    while i < n
        invariant
            n == cache@.len(),
            i <= n,
            forall|j: int| 0 <= j < i ==> (#[trigger] cache@[j].0).pv() != p.pv(),
        decreases n - i,
    {
        if path_eq(&cache[i].0, p) {
            let v = cache[i].1.clone();
            return Option::Some(v);
        }
        i += 1;
    }
    Option::None
}

/// One pending walk: the accumulated prefix and the components still to
/// process, next component last.
struct Frame {
    acc: FsPath,
    rem: Vec<String>,
}

/// Remaining work over the frame stack: components still to process,
/// plus one closing step per frame.
spec fn total_rem(s: Seq<Frame>) -> int
    decreases s.len(),
{
    if s.len() == 0 {
        0
    } else {
        total_rem(s.drop_last()) + s.last().rem@.len() + 1
    }
}

proof fn lemma_total_rem_nonneg(s: Seq<Frame>)
    ensures
        total_rem(s) >= 0,
    decreases s.len(),
{
    if s.len() > 0 {
        lemma_total_rem_nonneg(s.drop_last());
    }
}

/// The components of `p`, reversed, so that the next one is popped off
/// the end.
fn rev_components(p: &FsPath) -> (r: Vec<String>)
    ensures
        r@.len() == p.parts@.len(),
        forall|j: int|
            0 <= j < r@.len() ==> (#[trigger] r@[j])@ == p.parts@[p.parts@.len() - 1 - j]@,
{
    let n = p.parts.len();
    let mut out: Vec<String> = Vec::new();
    let mut i: usize = 0;
    while i < n
        invariant
            n == p.parts@.len(),
            i <= n,
            out@.len() == i,
            forall|j: int| 0 <= j < i ==> (#[trigger] out@[j])@ == p.parts@[n - 1 - j]@,
        decreases n - i,
    {
        out.push(p.parts[n - 1 - i].clone());
        i += 1;
    }
    out
}

/// The snapshot's one-step resolution of `p`, executed.
fn resolve_links(fs: &FsSnapshot, p: &FsPath) -> (r: FsPath)
    requires
        fs.wf(),
    ensures
        r.pv() == one_step(fs.entries@, p.pv()),
{
    match fs.lookup(p) {
        Option::Some(i) => {
            match &fs.entries[i].kind {
                FileKind::Symlink { target } => target.clone(),
                _ => p.clone(),
            }
        },
        Option::None => p.clone(),
    }
}

/// Resolves every symbolic-link component of `sym_path`, consulting and
/// filling `cache`. Relative paths are rooted at `cwd`. Whenever the
/// walk itself meets no link — in particular on a snapshot with no
/// links at all — the result is exactly the normalized path, whatever
/// links exist elsewhere; a walk that keeps producing new forms past
/// the substitution budget ends in an error.
#[verifier::loop_isolation(false)]
pub fn resolve_path(
    fs: &FsSnapshot,
    sym_path: &FsPath,
    cwd: &FsPath,
    cache: &mut Vec<(FsPath, FsPath)>,
) -> (r: Result<FsPath, String>)
    requires
        fs.wf(),
        cwd.absolute,
        cache_ok(fs.entries@, old(cache)@),
    ensures
        cache_ok(fs.entries@, final(cache)@),
        walk_clean(fs.entries@, cwd.pv(), sym_path.pv()) ==> r is Ok && r->Ok_0.pv() == normalize(
            cwd.pv(),
            sym_path.pv(),
        ),
        link_free(fs.entries@) ==> r is Ok && r->Ok_0.pv() == normalize(cwd.pv(), sym_path.pv()),
{
    proof {
        if link_free(fs.entries@) {
            lemma_link_free_walk_clean(fs.entries@, cwd.pv(), sym_path.pv());
        }
    }
    let ghost wclean = walk_clean(fs.entries@, cwd.pv(), sym_path.pv());
    let mut subs: usize = 0;

    let acc0 = if sym_path.absolute {
        FsPath::new(true)
    } else {
        cwd.clone()
    };
    let rem0 = rev_components(sym_path);
    let ghost comps = crate::strutil::dv(sym_path.parts@);
    let ghost start_acc = acc0.pv();
    let mut stack: Vec<Frame> = Vec::new();
    stack.push(Frame { acc: acc0, rem: rem0 });
    proof {
        assert(stack@.drop_last() =~= Seq::<Frame>::empty());
        assert(forall|k: int| 0 <= k < comps.len() ==> comps[k] == sym_path.parts@[k]@);
        assert(comps == sym_path.pv().1);
        if sym_path.absolute {
            assert(start_acc.1 =~= Seq::<Seq<char>>::empty());
        }
        assert(comps.take(0) =~= Seq::<Seq<char>>::empty());
        assert(walk_prefix(cwd.pv(), sym_path.pv(), 0) == start_acc);
    }

    loop
        invariant
            cache_ok(fs.entries@, cache@),
            stack@.len() >= 1,
            subs <= SUBSTITUTION_LIMIT,
            wclean ==> {
                &&& stack@.len() == 1
                &&& stack@[0].rem@.len() <= comps.len()
                &&& (forall|j: int|
                    0 <= j < stack@[0].rem@.len() ==> (#[trigger] stack@[0].rem@[j])@ == comps[
                        comps.len() - 1 - j
                    ])
                &&& stack@[0].acc.absolute == start_acc.0
                &&& start_acc.0
                &&& stack@[0].acc.pv() == walk_prefix(
                    cwd.pv(),
                    sym_path.pv(),
                    comps.len() - stack@[0].rem@.len(),
                )
                &&& normalize_from(
                    stack@[0].acc.pv().1,
                    comps,
                    comps.len() - stack@[0].rem@.len(),
                ) == normalize_from(start_acc.1, comps, 0)
                &&& normalize(cwd.pv(), sym_path.pv()) == (
                    start_acc.0,
                    normalize_from(start_acc.1, comps, 0),
                )
            },
        decreases SUBSTITUTION_LIMIT - subs, total_rem(stack@),
    {
        let ghost stack0 = stack@;
        let depth = stack.len();
        let rem_len = stack[depth - 1].rem.len();
        if rem_len == 0 {
            let frame = match stack.pop() {
                Option::Some(f) => f,
                Option::None => {
                    proof {
                        assert(false);
                    }
                    return Result::Err(String::new());
                },
            };
            if stack.len() == 0 {
                return Result::Ok(frame.acc);
            }
            proof {
                assert(stack@ =~= stack0.drop_last());
            }
            let inner = match stack.pop() {
                Option::Some(f) => f,
                Option::None => {
                    proof {
                        assert(false);
                    }
                    return Result::Err(String::new());
                },
            };
            proof {
                assert(stack@ =~= stack0.drop_last().drop_last());
            }
            let ghost inner_rem_len = inner.rem@.len();
            stack.push(Frame { acc: frame.acc, rem: inner.rem });
            proof {
                assert(stack@.drop_last() =~= stack0.drop_last().drop_last());
                assert(total_rem(stack0) == total_rem(stack0.drop_last())
                    + stack0.last().rem@.len() + 1);
                assert(total_rem(stack0.drop_last()) == total_rem(stack0.drop_last().drop_last())
                    + stack0.drop_last().last().rem@.len() + 1);
                assert(stack@.last().rem@.len() == inner_rem_len);
                assert(stack0.drop_last().last().rem@.len() == inner_rem_len);
                assert(total_rem(stack@) == total_rem(stack@.drop_last()) + stack@.last().rem@.len()
                    + 1);
                assert(total_rem(stack@) < total_rem(stack0));
                lemma_total_rem_nonneg(stack@);
            }
            continue;
        }

        let mut frame = match stack.pop() {
            Option::Some(f) => f,
            Option::None => {
                proof {
                    assert(false);
                }
                return Result::Err(String::new());
            },
        };
        proof {
            assert(stack@ =~= stack0.drop_last());
        }
        let ghost rem_before = frame.rem@;
        let c = match frame.rem.pop() {
            Option::Some(c) => c,
            Option::None => {
                proof {
                    assert(false);
                }
                return Result::Err(String::new());
            },
        };
        let ghost comp_idx = comps.len() - rem_before.len();
        proof {
            if wclean {
                assert(c@ == comps[comp_idx]);
                assert(comps.take(comp_idx + 1) =~= comps.take(comp_idx).push(comps[comp_idx]));
                lemma_normalize_snoc(Seq::empty(), comps.take(comp_idx), comps[comp_idx], 0);
                lemma_normalize_snoc(cwd.pv().1, comps.take(comp_idx), comps[comp_idx], 0);
            }
        }

        if str_eq(c.as_str(), ".") {
            stack.push(frame);
            proof {
                assert(stack@.drop_last() =~= stack0.drop_last());
                assert(total_rem(stack0) == total_rem(stack0.drop_last()) + rem_before.len() + 1);
                assert(stack@.last().rem@.len() == rem_before.len() - 1);
                assert(total_rem(stack@) == total_rem(stack@.drop_last()) + stack@.last().rem@.len()
                    + 1);
                assert(total_rem(stack@) < total_rem(stack0));
                lemma_total_rem_nonneg(stack@);
            }
            continue;
        }
        if str_eq(c.as_str(), "..") {
            frame.acc.pop_part();
            stack.push(frame);
            proof {
                assert(stack@.drop_last() =~= stack0.drop_last());
                assert(total_rem(stack0) == total_rem(stack0.drop_last()) + rem_before.len() + 1);
                assert(stack@.last().rem@.len() == rem_before.len() - 1);
                assert(total_rem(stack@) == total_rem(stack@.drop_last()) + stack@.last().rem@.len()
                    + 1);
                assert(total_rem(stack@) < total_rem(stack0));
                lemma_total_rem_nonneg(stack@);
            }
            continue;
        }
        frame.acc.push_part(c.as_str());

        let resolved = match cache_get(cache, &frame.acc) {
            Option::Some(v) => v,
            Option::None => {
                let v = resolve_links(fs, &frame.acc);
                let ghost cold = cache@;
                cache.push((frame.acc.clone(), v.clone()));
                proof {
                    assert(forall|j: int| 0 <= j < cold.len() ==> cache@[j] == cold[j]);
                    assert(cache@.last().1.pv() == one_step(fs.entries@, cache@.last().0.pv()));
                }
                v
            },
        };
        proof {
            if wclean {
                assert(frame.acc.pv() == walk_prefix(cwd.pv(), sym_path.pv(), comp_idx + 1));
                assert(one_step(fs.entries@, frame.acc.pv()) == frame.acc.pv());
                assert(resolved.pv() == frame.acc.pv());
            }
        }

        if resolved.absolute {
            frame.acc = resolved;
        } else {
            proof {
                if wclean {
                    assert(false);
                }
            }
            frame.acc.pop_part();
            let m = resolved.parts.len();
            let mut q: usize = 0;
            while q < m
                invariant
                    !wclean,
                    m == resolved.parts@.len(),
                    q <= m,
                    frame.rem@.len() == rem_before.len() - 1,
                decreases m - q,
            {
                frame.acc.push_part(resolved.parts[q].as_str());
                q += 1;
            }
        }

        let hit = match cache_get(cache, &frame.acc) {
            Option::Some(v2) => true,
            Option::None => false,
        };
        if !hit {
            proof {
                if wclean {
                    assert(false);
                }
            }
            if subs >= SUBSTITUTION_LIMIT {
                stack.push(frame);
                return Result::Err("Too many levels of symbolic links".to_owned());
            }
            subs += 1;
            let sub_acc = if frame.acc.absolute {
                FsPath::new(true)
            } else {
                cwd.clone()
            };
            let sub_rem = rev_components(&frame.acc);
            stack.push(frame);
            stack.push(Frame { acc: sub_acc, rem: sub_rem });
        } else {
            stack.push(frame);
            proof {
                assert(stack@.drop_last() =~= stack0.drop_last());
                assert(total_rem(stack0) == total_rem(stack0.drop_last()) + rem_before.len() + 1);
                assert(stack@.last().rem@.len() == rem_before.len() - 1);
                assert(total_rem(stack@) == total_rem(stack@.drop_last()) + stack@.last().rem@.len()
                    + 1);
                assert(total_rem(stack@) < total_rem(stack0));
                lemma_total_rem_nonneg(stack@);
            }
        }
    }
}

/// Resolution of possibly-linked paths against a snapshot.
pub trait SymLink {
    /// The path value resolution works on.
    spec fn path_value(&self) -> PathV;

    /// Whether this path is a foreign-format link that the platform's
    /// own path routines would not follow; the snapshot records every
    /// link uniformly, so nothing is foreign to the model.
    fn is_wsl_link(&self, fs: &FsSnapshot) -> (r: bool)
        ensures
            r == false,
    ;

    /// Fully dereferences the path, resolving every link component;
    /// whenever the walk meets no link the result is exactly the
    /// normalized path, whatever links the snapshot holds elsewhere.
    fn dereference(&self, fs: &FsSnapshot, cwd: &FsPath) -> (r: Result<FsPath, String>)
        requires
            fs.wf(),
            cwd.absolute,
        ensures
            walk_clean(fs.entries@, cwd.pv(), self.path_value()) ==> r is Ok && r->Ok_0.pv()
                == normalize(cwd.pv(), self.path_value()),
            link_free(fs.entries@) ==> r is Ok && r->Ok_0.pv() == normalize(
                cwd.pv(),
                self.path_value(),
            ),
    ;

    /// Dereferences only when `follow_links` is set; otherwise returns
    /// the path unchanged.
    fn resolve(&self, fs: &FsSnapshot, cwd: &FsPath, follow_links: bool) -> (r: Result<
        FsPath,
        String,
    >)
        requires
            fs.wf(),
            cwd.absolute,
        ensures
            follow_links && walk_clean(fs.entries@, cwd.pv(), self.path_value()) ==> r is Ok
                && r->Ok_0.pv() == normalize(cwd.pv(), self.path_value()),
            follow_links && link_free(fs.entries@) ==> r is Ok && r->Ok_0.pv() == normalize(
                cwd.pv(),
                self.path_value(),
            ),
            !follow_links ==> r is Ok && r->Ok_0.pv() == self.path_value(),
    ;
}

/// Fully dereferences `p` against the snapshot, with a fresh cache.
/// Whenever `p`'s own walk meets no link — on a link-free snapshot in
/// particular — this is exactly normalization, whatever links the
/// snapshot holds elsewhere.
pub fn dereference_path(p: &FsPath, fs: &FsSnapshot, cwd: &FsPath) -> (r: Result<FsPath, String>)
    requires
        fs.wf(),
        cwd.absolute,
    ensures
        walk_clean(fs.entries@, cwd.pv(), p.pv()) ==> r is Ok && r->Ok_0.pv() == normalize(
            cwd.pv(),
            p.pv(),
        ),
        link_free(fs.entries@) ==> r is Ok && r->Ok_0.pv() == normalize(cwd.pv(), p.pv()),
{
    let mut visited: Vec<(FsPath, FsPath)> = Vec::new();
    resolve_path(fs, p, cwd, &mut visited)
}

/// Dereferences `p` when `follow_links` is set; otherwise returns it
/// unchanged.
pub fn resolve_maybe(p: &FsPath, fs: &FsSnapshot, cwd: &FsPath, follow_links: bool) -> (r: Result<
    FsPath,
    String,
>)
    requires
        fs.wf(),
        cwd.absolute,
    ensures
        follow_links && walk_clean(fs.entries@, cwd.pv(), p.pv()) ==> r is Ok && r->Ok_0.pv()
            == normalize(cwd.pv(), p.pv()),
        follow_links && link_free(fs.entries@) ==> r is Ok && r->Ok_0.pv() == normalize(
            cwd.pv(),
            p.pv(),
        ),
        !follow_links ==> r is Ok && r->Ok_0.pv() == p.pv(),
{
    if follow_links {
        dereference_path(p, fs, cwd)
    } else {
        Result::Ok(p.clone())
    }
}

impl SymLink for FsPath {
    open spec fn path_value(&self) -> PathV {
        self.pv()
    }

    fn is_wsl_link(&self, fs: &FsSnapshot) -> (r: bool) {
        false
    }

    fn dereference(&self, fs: &FsSnapshot, cwd: &FsPath) -> (r: Result<FsPath, String>) {
        dereference_path(self, fs, cwd)
    }

    fn resolve(&self, fs: &FsSnapshot, cwd: &FsPath, follow_links: bool) -> (r: Result<
        FsPath,
        String,
    >) {
        resolve_maybe(self, fs, cwd, follow_links)
    }
}

} // verus!
