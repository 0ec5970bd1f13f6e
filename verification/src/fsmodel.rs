//! A snapshot of the part of the filesystem a copy run reads: for each
//! visible entry, its path, its kind (with file size or link target), and
//! its canonical identity. The surrounding program fills one in by
//! probing the real filesystem; the planner is verified against it.

use vstd::prelude::*;
use crate::path::{FsPath, PathV, path_eq};
use crate::strutil::{dv, str_eq};

verus! {

/// What kind of filesystem object an entry is.
pub enum FileKind {
    Regular { size: u64 },
    Directory,
    Symlink { target: FsPath },
    Fifo,
    Socket,
    BlockDevice,
    CharDevice,
}

impl FileKind {
    /// Value equality, comparing link targets as path values.
    pub open spec fn eqv(self, other: FileKind) -> bool {
        match (self, other) {
            (FileKind::Regular { size: a }, FileKind::Regular { size: b }) => a == b,
            (FileKind::Directory, FileKind::Directory) => true,
            (FileKind::Symlink { target: a }, FileKind::Symlink { target: b }) => a.pv() == b.pv(),
            (FileKind::Fifo, FileKind::Fifo) => true,
            (FileKind::Socket, FileKind::Socket) => true,
            (FileKind::BlockDevice, FileKind::BlockDevice) => true,
            (FileKind::CharDevice, FileKind::CharDevice) => true,
            _ => false,
        }
    }
}

impl Clone for FileKind {
    fn clone(&self) -> (r: Self)
        ensures
            r.eqv(*self),
    {
        match self {
            FileKind::Regular { size } => FileKind::Regular { size: *size },
            FileKind::Directory => FileKind::Directory,
            FileKind::Symlink { target } => FileKind::Symlink { target: target.clone() },
            FileKind::Fifo => FileKind::Fifo,
            FileKind::Socket => FileKind::Socket,
            FileKind::BlockDevice => FileKind::BlockDevice,
            FileKind::CharDevice => FileKind::CharDevice,
        }
    }
}

/// One visible filesystem entry.
pub struct FsEntry {
    pub path: FsPath,
    pub kind: FileKind,
    pub canon: FsPath,
}

/// Everything the planner may probe.
pub struct FsSnapshot {
    pub entries: Vec<FsEntry>,
}

/// Some entry has path value `p`.
pub open spec fn has_entry(fs: Seq<FsEntry>, p: PathV) -> bool {
    exists|i: int| 0 <= i < fs.len() && fs[i].path.pv() == p
}

/// The entry with path value `p` (meaningful under `has_entry` and
/// unique paths).
pub open spec fn entry_at(fs: Seq<FsEntry>, p: PathV) -> FsEntry {
    fs[choose|i: int| 0 <= i < fs.len() && fs[i].path.pv() == p]
}

/// `c` names a direct child of directory path `d`.
pub open spec fn is_child_of(c: PathV, d: PathV) -> bool {
    c.0 == d.0 && c.1.len() == d.1.len() + 1 && c.1.drop_last() == d.1
}

/// The longest component count among the snapshot's entries.
pub open spec fn max_parts(fs: Seq<FsEntry>) -> int
    decreases fs.len(),
{
    if fs.len() == 0 {
        0
    } else {
        let rest = max_parts(fs.drop_last());
        let lastl = fs.last().path.pv().1.len() as int;
        if lastl > rest {
            lastl
        } else {
            rest
        }
    }
}

pub proof fn lemma_max_parts(fs: Seq<FsEntry>, i: int)
    requires
        0 <= i < fs.len(),
    ensures
        fs[i].path.pv().1.len() <= max_parts(fs),
    decreases fs.len(),
{
    if i == fs.len() - 1 {
    } else {
        assert(fs.drop_last()[i] == fs[i]);
        lemma_max_parts(fs.drop_last(), i);
    }
}

impl FsSnapshot {
    /// Paths are unique.
    pub open spec fn wf(self) -> bool {
        forall|i: int, j: int|
            0 <= i < j < self.entries@.len() ==> #[trigger] self.entries@[i].path.pv()
                != #[trigger] self.entries@[j].path.pv()
    }

    pub fn new() -> (r: Self)
        ensures
            r.wf(),
            r.entries@.len() == 0,
    {
        FsSnapshot { entries: Vec::new() }
    }

    /// Adds an entry; the path must be new.
    pub fn add_entry(&mut self, e: FsEntry)
        requires
            old(self).wf(),
            !has_entry(old(self).entries@, e.path.pv()),
        ensures
            final(self).wf(),
            final(self).entries@ == old(self).entries@.push(e),
    {
        proof {
            let t = self.entries@.push(e);
            assert(forall|i: int|
                0 <= i < self.entries@.len() ==> #[trigger] t[i].path.pv() == self.entries@[
                    i
                ].path.pv());
        }
        self.entries.push(e);
    }

    /// Finds the entry with the given path, if any.
    pub fn lookup(&self, p: &FsPath) -> (r: Option<usize>)
        requires
            self.wf(),
        ensures
            match r {
                Option::Some(i) => i < self.entries@.len() && self.entries@[i as int].path.pv()
                    == p.pv() && has_entry(self.entries@, p.pv()) && entry_at(self.entries@, p.pv())
                    == self.entries@[i as int],
                Option::None => !has_entry(self.entries@, p.pv()),
            },
    {
        let n = self.entries.len();
        let mut i: usize = 0;
        while i < n
            invariant
                self.wf(),
                n == self.entries@.len(),
                i <= n,
                forall|j: int| 0 <= j < i ==> #[trigger] self.entries@[j].path.pv() != p.pv(),
            decreases n - i,
        {
            if path_eq(&self.entries[i].path, p) {
                proof {
                    let w = choose|w: int|
                        0 <= w < self.entries@.len() && self.entries@[w].path.pv() == p.pv();
                    assert(self.entries@[w].path.pv() == self.entries@[i as int].path.pv());
                    assert(w == i as int);
                }
                return Option::Some(i);
            }
            i += 1;
        }
        Option::None
    }

    /// The indices of the direct children of directory path `d`, in
    /// snapshot order.
    #[verifier::loop_isolation(false)]
    pub fn child_indices(&self, d: &FsPath) -> (r: Vec<usize>)
        requires
            self.wf(),
        ensures
            forall|k: int|
                0 <= k < r@.len() ==> (#[trigger] r@[k]) < self.entries@.len() && is_child_of(
                    self.entries@[r@[k] as int].path.pv(),
                    d.pv(),
                ),
            forall|j: int|
                0 <= j < self.entries@.len() && is_child_of(
                    #[trigger] self.entries@[j].path.pv(),
                    d.pv(),
                ) ==> r@.contains(j as usize),
            forall|k1: int, k2: int| 0 <= k1 < k2 < r@.len() ==> r@[k1] < r@[k2],
    {
        let n = self.entries.len();
        let mut out: Vec<usize> = Vec::new();
        let mut i: usize = 0;
        while i < n
            invariant
                i <= n,
                forall|k: int|
                    0 <= k < out@.len() ==> (#[trigger] out@[k]) < i && is_child_of(
                        self.entries@[out@[k] as int].path.pv(),
                        d.pv(),
                    ),
                forall|j: int|
                    0 <= j < i && is_child_of(#[trigger] self.entries@[j].path.pv(), d.pv())
                        ==> out@.contains(j as usize),
                forall|k1: int, k2: int| 0 <= k1 < k2 < out@.len() ==> out@[k1] < out@[k2],
            decreases n - i,
        {
            if is_child_exec(&self.entries[i].path, d) {
                let ghost outv = out@;
                out.push(i);
                proof {
                    assert forall|j2: usize| outv.contains(j2) implies out@.contains(j2) by {
                        let w = choose|w: int| 0 <= w < outv.len() && outv[w] == j2;
                        assert(out@[w] == j2);
                    }
                    assert(out@[out@.len() - 1] == i);
                    assert(out@.contains(i));
                    assert forall|k: int| 0 <= k < out@.len() implies (#[trigger] out@[k]) <= i
                        && is_child_of(self.entries@[out@[k] as int].path.pv(), d.pv()) by {
                        if k < out@.len() - 1 {
                            assert(out@[k] == outv[k]);
                            assert(is_child_of(
                                self.entries@[outv[k] as int].path.pv(),
                                d.pv(),
                            ));
                        } else {
                            assert(out@[k] == i);
                            assert(is_child_of(self.entries@[i as int].path.pv(), d.pv()));
                        }
                    }
                }
            }
            i += 1;
        }
        out
    }
}

/// Decides whether `c` names a direct child of `d`.
#[verifier::loop_isolation(false)]
pub fn is_child_exec(c: &FsPath, d: &FsPath) -> (r: bool)
    ensures
        r == is_child_of(c.pv(), d.pv()),
{
    if c.absolute != d.absolute {
        return false;
    }
    let m = d.parts.len();
    if c.parts.len() < 1 || c.parts.len() - 1 != m {
        return false;
    }
    let mut j: usize = 0;
    while j < m
        invariant
            m == d.parts@.len(),
            j <= m,
            c.parts@.len() == m + 1,
            c.absolute == d.absolute,
            forall|q: int| 0 <= q < j ==> dv(c.parts@)[q] == dv(d.parts@)[q],
        decreases m - j,
    {
        if !str_eq(c.parts[j].as_str(), d.parts[j].as_str()) {
            proof {
                if is_child_of(c.pv(), d.pv()) {
                    assert(dv(c.parts@).drop_last()[j as int] == dv(d.parts@)[j as int]);
                    assert(false);
                }
            }
            return false;
        }
        j += 1;
    }
    proof {
        assert(dv(c.parts@).drop_last() =~= dv(d.parts@));
    }
    true
}

} // verus!
