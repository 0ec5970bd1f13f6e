//! The copy plan: an ordered mapping from destination path to planned
//! work item, kept sorted by destination. Inserting under an existing
//! destination replaces the earlier item.

use vstd::prelude::*;
use crate::path::{FsPath, PathV, path_le, path_eq, path_le_exec};
use crate::path::{lemma_path_le_total, lemma_path_le_antisymmetric, lemma_path_le_transitive};

verus! {

/// What a work item does.
#[derive(Clone, Copy, Debug, PartialEq, Eq, Structural)]
pub enum Action {
    Copy,
    CreateDir,
    Link,
}

/// One planned filesystem operation. `top` is the command-line source
/// string the item descends from (for error locations); `src` is the
/// path to read or mirror, or the link target for `Link` items.
pub struct WorkItem {
    pub top: String,
    pub act: Action,
    pub src: FsPath,
}

/// The mathematical value of a work item.
pub type ItemV = (Seq<char>, Action, PathV);

impl WorkItem {
    pub open spec fn iv(self) -> ItemV {
        (self.top@, self.act, self.src.pv())
    }

    pub fn new(top: &str, act: Action, src: FsPath) -> (r: Self)
        ensures
            r.iv() == (top@, act, src.pv()),
    {
        WorkItem { top: top.to_owned(), act, src }
    }
}

/// A destination paired with its work item.
pub struct PlanEntry {
    pub dest: FsPath,
    pub item: WorkItem,
}

/// The map a plan denotes.
pub open spec fn pmap(s: Seq<PlanEntry>) -> Map<PathV, ItemV>
    decreases s.len(),
{
    if s.len() == 0 {
        Map::empty()
    } else {
        pmap(s.drop_last()).insert(s.last().dest.pv(), s.last().item.iv())
    }
}

pub proof fn lemma_pmap_dom(s: Seq<PlanEntry>)
    ensures
        forall|k: PathV|
            pmap(s).contains_key(k) <==> exists|i: int| 0 <= i < s.len() && s[i].dest.pv() == k,
    decreases s.len(),
{
    if s.len() > 0 {
        lemma_pmap_dom(s.drop_last());
        assert forall|k: PathV| pmap(s).contains_key(k) implies exists|i: int|
            0 <= i < s.len() && s[i].dest.pv() == k by {
            if k == s.last().dest.pv() {
                assert(s[s.len() - 1].dest.pv() == k);
            } else {
                assert(pmap(s.drop_last()).contains_key(k));
                let i = choose|i: int|
                    0 <= i < s.drop_last().len() && s.drop_last()[i].dest.pv() == k;
                assert(s.drop_last()[i] == s[i]);
                assert(s[i].dest.pv() == k);
            }
        }
        assert forall|k: PathV| (exists|i: int| 0 <= i < s.len() && s[i].dest.pv() == k)
            implies pmap(s).contains_key(k) by {
            let i = choose|i: int| 0 <= i < s.len() && s[i].dest.pv() == k;
            if i < s.len() - 1 {
                assert(s.drop_last()[i].dest.pv() == k);
                assert(pmap(s.drop_last()).contains_key(k));
            } else {
                assert(k == s.last().dest.pv());
            }
        }
    }
}

/// Destinations are strictly sorted (hence unique).
pub open spec fn plan_sorted(s: Seq<PlanEntry>) -> bool {
    forall|i: int, j: int|
        0 <= i < j < s.len() ==> path_le(#[trigger] s[i].dest.pv(), #[trigger] s[j].dest.pv())
            && s[i].dest.pv() != s[j].dest.pv()
}

pub proof fn lemma_pmap_get(s: Seq<PlanEntry>, i: int)
    requires
        plan_sorted(s),
        0 <= i < s.len(),
    ensures
        pmap(s).contains_key(s[i].dest.pv()),
        pmap(s)[s[i].dest.pv()] == s[i].item.iv(),
    decreases s.len(),
{
    if i == s.len() - 1 {
    } else {
        assert(s.drop_last()[i] == s[i]);
        assert(plan_sorted(s.drop_last())) by {
            assert(forall|a: int, b: int|
                0 <= a < b < s.drop_last().len() ==> s.drop_last()[a] == s[a] && s.drop_last()[b]
                    == s[b]);
        }
        lemma_pmap_get(s.drop_last(), i);
        assert(s[i].dest.pv() != s.last().dest.pv());
    }
}

pub proof fn lemma_pmap_update(s: Seq<PlanEntry>, i: int, e: PlanEntry)
    requires
        plan_sorted(s),
        0 <= i < s.len(),
        e.dest.pv() == s[i].dest.pv(),
    ensures
        pmap(s.update(i, e)) == pmap(s).insert(e.dest.pv(), e.item.iv()),
    decreases s.len(),
{
    let t = s.update(i, e);
    if i == s.len() - 1 {
        assert(t.drop_last() =~= s.drop_last());
        assert(t.last() == e);
        assert(pmap(t) =~= pmap(s).insert(e.dest.pv(), e.item.iv()));
    } else {
        assert(t.drop_last() =~= s.drop_last().update(i, e));
        assert(s.drop_last()[i] == s[i]);
        assert(plan_sorted(s.drop_last())) by {
            assert(forall|a: int, b: int|
                0 <= a < b < s.drop_last().len() ==> s.drop_last()[a] == s[a] && s.drop_last()[b]
                    == s[b]);
        }
        lemma_pmap_update(s.drop_last(), i, e);
        assert(t.last() == s.last());
        assert(s[i].dest.pv() != s.last().dest.pv());
        assert(pmap(t) =~= pmap(s).insert(e.dest.pv(), e.item.iv()));
    }
}

pub proof fn lemma_pmap_insert_at(s: Seq<PlanEntry>, i: int, e: PlanEntry)
    requires
        0 <= i <= s.len(),
        forall|j: int| 0 <= j < s.len() ==> #[trigger] s[j].dest.pv() != e.dest.pv(),
    ensures
        pmap(s.insert(i, e)) == pmap(s).insert(e.dest.pv(), e.item.iv()),
    decreases s.len(),
{
    let t = s.insert(i, e);
    if i == s.len() {
        assert(t.drop_last() =~= s);
        assert(t.last() == e);
    } else {
        assert(t.drop_last() =~= s.drop_last().insert(i, e));
        assert(t.last() == s.last());
        assert(forall|j: int|
            0 <= j < s.drop_last().len() ==> #[trigger] s.drop_last()[j].dest.pv() == s[
                j
            ].dest.pv());
        lemma_pmap_insert_at(s.drop_last(), i, e);
        assert(s[s.len() - 1].dest.pv() != e.dest.pv());
        assert(pmap(t) =~= pmap(s).insert(e.dest.pv(), e.item.iv()));
    }
}

/// The ordered copy plan.
pub struct Plan {
    pub entries: Vec<PlanEntry>,
}

impl Plan {
    /// The plan as a map from destination to item.
    pub open spec fn view_map(self) -> Map<PathV, ItemV> {
        pmap(self.entries@)
    }

    pub open spec fn wf(self) -> bool {
        plan_sorted(self.entries@)
    }

    pub fn new() -> (r: Self)
        ensures
            r.wf(),
            r.entries@.len() == 0,
            r.view_map() == Map::<PathV, ItemV>::empty(),
    {
        Plan { entries: Vec::new() }
    }

    pub fn len(&self) -> (r: usize)
        ensures
            r == self.entries@.len(),
    {
        self.entries.len()
    }

    pub fn is_empty(&self) -> (r: bool)
        ensures
            r == (self.entries@.len() == 0),
    {
        self.entries.len() == 0
    }

    /// Inserts a work item under a destination, replacing any item
    /// already planned for that destination.
    #[verifier::loop_isolation(false)]
    pub fn insert(&mut self, dest: FsPath, item: WorkItem)
        requires
            old(self).wf(),
        ensures
            final(self).wf(),
            final(self).view_map() == old(self).view_map().insert(dest.pv(), item.iv()),
            final(self).entries@.len() == old(self).entries@.len() + (
            if old(self).view_map().contains_key(dest.pv()) {
                0int
            } else {
                1int
            }),
            forall|j: int|
                0 <= j < old(self).entries@.len() && #[trigger] old(self).entries@[j].dest.pv()
                    != dest.pv() ==> exists|j2: int|
                    0 <= j2 < final(self).entries@.len() && final(self).entries@[j2]
                        == old(self).entries@[j],
    {
        proof {
            lemma_pmap_dom(self.entries@);
        }
        let n = self.entries.len();
        let mut i: usize = 0;
        while i < n && path_le_exec(&self.entries[i].dest, &dest) && !path_eq(
            &self.entries[i].dest,
            &dest,
        )
            invariant
                i <= n,
                forall|j: int|
                    0 <= j < i ==> path_le(#[trigger] self.entries@[j].dest.pv(), dest.pv())
                        && self.entries@[j].dest.pv() != dest.pv(),
            decreases n - i,
        {
            i += 1;
        }
        if i < n && path_eq(&self.entries[i].dest, &dest) {
            proof {
                lemma_pmap_update(self.entries@, i as int, PlanEntry { dest, item });
            }
            let ghost olds = self.entries@;
            self.entries.set(i, PlanEntry { dest, item });
            proof {
                assert(plan_sorted(self.entries@)) by {
                    assert(forall|a: int|
                        0 <= a < olds.len() ==> #[trigger] self.entries@[a].dest.pv() == olds[
                            a
                        ].dest.pv());
                }
                assert forall|j: int|
                    0 <= j < olds.len() && #[trigger] olds[j].dest.pv() != olds[
                        i as int
                    ].dest.pv() implies exists|j2: int|
                    0 <= j2 < self.entries@.len() && self.entries@[j2] == olds[j] by {
                    assert(self.entries@[j] == olds[j]);
                }
            }
        } else {
            proof {
                if i < n {
                    lemma_path_le_total(self.entries@[i as int].dest.pv(), dest.pv());
                }
                assert forall|j: int|
                    i <= j < self.entries@.len() implies path_le(
                        dest.pv(),
                        #[trigger] self.entries@[j].dest.pv(),
                    ) by {
                    if i < n && j > i {
                        lemma_path_le_transitive(
                            dest.pv(),
                            self.entries@[i as int].dest.pv(),
                            self.entries@[j].dest.pv(),
                        );
                    }
                }
                assert forall|j: int| 0 <= j < self.entries@.len()
                    implies #[trigger] self.entries@[j].dest.pv() != dest.pv() by {
                    if j >= i {
                        if self.entries@[j].dest.pv() == dest.pv() {
                            if j > i {
                                lemma_path_le_antisymmetric(
                                    self.entries@[i as int].dest.pv(),
                                    self.entries@[j].dest.pv(),
                                );
                            }
                            assert(false);
                        }
                    }
                }
                lemma_pmap_insert_at(self.entries@, i as int, PlanEntry { dest, item });
            }
            let ghost olds = self.entries@;
            self.entries.insert(i, PlanEntry { dest, item });
            proof {
                let news = self.entries@;
                assert(forall|j: int| 0 <= j < i ==> news[j] == olds[j]);
                assert(news[i as int] == (PlanEntry { dest, item }));
                assert(forall|j: int| i < j < news.len() ==> news[j] == olds[j - 1]);
                assert forall|a: int, b: int| 0 <= a < b < news.len() implies path_le(
                    #[trigger] news[a].dest.pv(),
                    #[trigger] news[b].dest.pv(),
                ) && news[a].dest.pv() != news[b].dest.pv() by {
                    if a == i {
                        assert(news[b] == olds[b - 1]);
                    } else if b == i {
                        assert(news[a] == olds[a]);
                    } else {
                        let a0: int = if a < i { a } else { a - 1 };
                        let b0: int = if b < i { b } else { b - 1 };
                        assert(news[a] == olds[a0] && news[b] == olds[b0]);
                    }
                }
                assert forall|j: int|
                    0 <= j < olds.len() && #[trigger] olds[j].dest.pv() != dest.pv() implies exists|
                    j2: int,
                |
                    0 <= j2 < news.len() && news[j2] == olds[j] by {
                    let j2: int = if j < i { j } else { j + 1 };
                    assert(news[j2] == olds[j]);
                }
            }
        }
    }
}

} // verus!
