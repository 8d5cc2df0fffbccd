//! Mutating operations on the container tree: insert, detach (with
//! collapse of emptied split containers), window attribute updates,
//! workspace activation and ratio adjustment. Every operation preserves
//! well-formedness, in particular the ratio discipline: after each one,
//! the tiling children of every group sum to exactly `RATIO_UNIT`.

use vstd::prelude::*;

use crate::ratio::rescale_ratios;
use crate::tree::{
    count_id_in, lemma_same_tree_in_pointwise, lemma_same_tree_refl, lemma_wf_in_iff, ratio_sum,
    same_tree, wf_in, ActiveDrag, Container, ContainerKind, DisplayState, TilingState, RATIO_UNIT,
};
use crate::WmError;

verus! {

impl Container {
    /// The first node of this subtree (in tree order) carrying `id`.
    pub open spec fn subtree(self, id: u64) -> Option<Container>
        decreases self,
    {
        if self.id == id {
            Some(self)
        } else {
            subtree_in(self.children@, id)
        }
    }

    /// Whether `insert` accepts `child` under the node `parent_id` at
    /// position `index`: the parent exists, accepts the child's kind, the
    /// index is within its child list, and the list is not at capacity.
    pub open spec fn insert_allowed(self, parent_id: u64, child: Container, index: int) -> bool {
        match self.subtree(parent_id) {
            Some(p) => Self::kind_allows_child(p.kind, child.kind) && index <= p.children@.len()
                && p.children@.len() < 0x0100_0000,
            None => false,
        }
    }
}

/// First node carrying `id` over a sequence of subtrees.
pub open spec fn subtree_in(s: Seq<Container>, id: u64) -> Option<Container>
    decreases s,
{
    if s.len() == 0 {
        None
    } else {
        match s[0].subtree(id) {
            Some(n) => Some(n),
            None => subtree_in(s.drop_first(), id),
        }
    }
}

/// Splitting fact for `subtree_in`, used to walk child lists.
proof fn lemma_subtree_in_skip(s: Seq<Container>, i: int, id: u64)
    requires
        0 <= i < s.len(),
    ensures
        subtree_in(s.skip(i), id) == (match s[i].subtree(id) {
            Some(n) => Some(n),
            None => subtree_in(s.skip(i + 1), id),
        }),
{
    assert(s.skip(i).len() > 0);
    assert(s.skip(i)[0] == s[i]);
    assert(s.skip(i).drop_first() =~= s.skip(i + 1));
}

/// A subtree is found somewhere iff its identifier is counted.
proof fn lemma_subtree_in_counts(s: Seq<Container>, id: u64)
    ensures
        subtree_in(s, id) is Some <==> count_id_in(s, id) > 0,
    decreases s,
{
    if s.len() > 0 {
        lemma_subtree_counts(s[0], id);
        lemma_subtree_in_counts(s.drop_first(), id);
    }
}

/// A node with `id` exists in a subtree iff `contains_id` holds.
pub proof fn lemma_subtree_counts(c: Container, id: u64)
    ensures
        c.subtree(id) is Some <==> c.contains_id(id),
    decreases c,
{
    if c.id != id {
        lemma_subtree_in_counts(c.children@, id);
    }
}

/// One element's count never exceeds the list's count.
proof fn lemma_count_id_in_at(s: Seq<Container>, j: int, id: u64)
    requires
        0 <= j < s.len(),
    ensures
        count_id_in(s, id) >= s[j].count_id(id),
    decreases s,
{
    if j > 0 {
        lemma_count_id_in_at(s.drop_first(), j - 1, id);
    }
}

/// Count of a list with one element replaced.
proof fn lemma_count_id_in_update(s: Seq<Container>, i: int, x: Container, id: u64)
    requires
        0 <= i < s.len(),
    ensures
        count_id_in(s.update(i, x), id) == count_id_in(s, id) - s[i].count_id(id) + x.count_id(id),
    decreases s,
{
    if i == 0 {
        assert(s.update(0, x)[0] == x);
        assert(s.update(0, x).drop_first() =~= s.drop_first());
    } else {
        assert(s.update(i, x)[0] == s[0]);
        assert(s.update(i, x).drop_first() =~= s.drop_first().update(i - 1, x));
        lemma_count_id_in_update(s.drop_first(), i - 1, x, id);
    }
}

/// Count of a list with one element inserted.
proof fn lemma_count_id_in_insert(s: Seq<Container>, i: int, x: Container, id: u64)
    requires
        0 <= i <= s.len(),
    ensures
        count_id_in(s.insert(i, x), id) == count_id_in(s, id) + x.count_id(id),
    decreases s,
{
    if i == 0 {
        assert(s.insert(0, x)[0] == x);
        assert(s.insert(0, x).drop_first() =~= s);
    } else {
        assert(s.insert(i, x)[0] == s[0]);
        assert(s.insert(i, x).drop_first() =~= s.drop_first().insert(i - 1, x));
        lemma_count_id_in_insert(s.drop_first(), i - 1, x, id);
    }
}

/// Count of a list with one element removed.
proof fn lemma_count_id_in_remove(s: Seq<Container>, i: int, id: u64)
    requires
        0 <= i < s.len(),
    ensures
        count_id_in(s.remove(i), id) == count_id_in(s, id) - s[i].count_id(id),
    decreases s,
{
    if i == 0 {
        assert(s.remove(0) =~= s.drop_first());
    } else {
        assert(s.remove(i)[0] == s[0]);
        assert(s.remove(i).drop_first() =~= s.drop_first().remove(i - 1));
        lemma_count_id_in_remove(s.drop_first(), i - 1, id);
    }
}


/// Ratio sums are pointwise: equal tiling ratios give equal sums.
proof fn lemma_ratio_sum_pointwise(s1: Seq<Container>, s2: Seq<Container>)
    requires
        s1.len() == s2.len(),
        forall|j: int|
            0 <= j < s1.len() ==> (#[trigger] s1[j]).tiling_ratio() == s2[j].tiling_ratio(),
    ensures
        ratio_sum(s1) == ratio_sum(s2),
    decreases s1,
{
    if s1.len() > 0 {
        assert(forall|j: int|
            0 <= j < s1.drop_first().len() ==> #[trigger] s1.drop_first()[j] == s1[j + 1]
                && s2.drop_first()[j] == s2[j + 1]);
        lemma_ratio_sum_pointwise(s1.drop_first(), s2.drop_first());
    }
}

/// Two containers of the same identifier and children have the same
/// counts everywhere.
proof fn lemma_count_same_shape(a: Container, b: Container, id: u64)
    requires
        a.id == b.id,
        a.children@ == b.children@,
    ensures
        a.count_id(id) == b.count_id(id),
{
}

/// Counts are pointwise: equal element counts give an equal list count.
proof fn lemma_count_id_in_pointwise(s1: Seq<Container>, s2: Seq<Container>, id: u64)
    requires
        s1.len() == s2.len(),
        forall|j: int| 0 <= j < s1.len() ==> s1[j].count_id(id) == #[trigger] s2[j].count_id(id),
    ensures
        count_id_in(s1, id) == count_id_in(s2, id),
    decreases s1,
{
    if s1.len() > 0 {
        assert(s1[0].count_id(id) == s2[0].count_id(id));
        assert(forall|j: int|
            0 <= j < s1.drop_first().len() ==> s1.drop_first()[j].count_id(id)
                == #[trigger] s2.drop_first()[j].count_id(id)) by {
            assert(forall|j: int|
                0 <= j < s1.drop_first().len() ==> s1.drop_first()[j] == s1[j + 1]
                    && #[trigger] s2.drop_first()[j] == s2[j + 1]);
        }
        lemma_count_id_in_pointwise(s1.drop_first(), s2.drop_first(), id);
    }
}

/// Well-formedness does not depend on the identifier or the exact ratio,
/// as long as the ratio stays bounded.
proof fn lemma_wf_same_shape(a: Container, b: Container)
    requires
        a.wf(),
        a.kind == b.kind,
        a.children@ == b.children@,
        b.ratio <= RATIO_UNIT,
    ensures
        b.wf(),
{
}

/// Executable check of `kind_allows_child`.
fn kind_allows(parent: ContainerKind, child: ContainerKind) -> (r: bool)
    ensures
        r == Container::kind_allows_child(parent, child),
{
    match parent {
        ContainerKind::Root => matches!(child, ContainerKind::Monitor),
        ContainerKind::Monitor => matches!(child, ContainerKind::Workspace { .. }),
        ContainerKind::Workspace { .. } => matches!(
            child,
            ContainerKind::Split { .. } | ContainerKind::Window { .. }
        ),
        ContainerKind::Split { .. } => matches!(
            child,
            ContainerKind::Split { .. } | ContainerKind::Window { .. }
        ),
        ContainerKind::Window { .. } => false,
    }
}


impl Container {
    /// What a successful insert leaves behind: the child stands under
    /// the parent at `index` with its kind and subtree intact (only its
    /// top-level ratio is renormalized within the new sibling group),
    /// and the parent's child list grew by exactly that entry.
    pub open spec fn inserted_effect(
        old_t: Container,
        new_t: Container,
        parent_id: u64,
        child: Container,
        index: int,
    ) -> bool {
        &&& (match new_t.subtree(child.id) {
            Some(n) => n.id == child.id && n.kind == child.kind && n.children@ == child.children@
                && n.ratio <= RATIO_UNIT,
            None => false,
        })
        &&& (match (old_t.subtree(parent_id), new_t.subtree(parent_id)) {
            (Some(p), Some(p2)) => p2.id == p.id && p2.kind == p.kind && p2.children@.len()
                == p.children@.len() + 1 && (forall|j: int|
                0 <= j < p2.children@.len() ==> (#[trigger] p2.children@[j]).id == p.children@.insert(
                    index,
                    child,
                )[j].id),
            _ => false,
        })
    }

    /// Inserts `child` (with its whole subtree) as the `index`-th child
    /// of the node `parent_id`, renormalizing the sibling ratios there.
    /// On any error the tree is structurally unchanged.
    pub fn insert(&mut self, parent_id: u64, child: Container, index: usize) -> (r: Result<
        (),
        WmError,
    >)
        requires
            old(self).wf(),
            old(self).distinct_ids(),
            child.wf(),
            forall|id: u64| #[trigger] old(self).count_id(id) + child.count_id(id) <= 1,
        ensures
            final(self).id == old(self).id,
            final(self).kind == old(self).kind,
            final(self).ratio == old(self).ratio,
            r is Ok <==> old(self).insert_allowed(parent_id, child, index as int),
            r is Ok ==> final(self).wf() && (forall|id: u64|
                #[trigger] final(self).count_id(id) == old(self).count_id(id) + child.count_id(
                    id,
                )) && Self::inserted_effect(*old(self), *final(self), parent_id, child, index as int),
            r matches Err(e) ==> same_tree(*final(self), *old(self)) && (e
                == WmError::ContainerNotFound <==> !old(self).contains_id(parent_id)) && (e
                is ContainerNotFound || e is InvalidOperation),
    {
        match self.insert_rec(parent_id, child, index) {
            Ok(()) => Ok(()),
            Err((e, _)) => Err(e),
        }
    }

    /// Recursive worker for `insert`; a failed attempt hands the child
    /// back to the caller.
    #[verifier::loop_isolation(false)]
    fn insert_rec(&mut self, parent_id: u64, child: Container, index: usize) -> (r: Result<
        (),
        (WmError, Container),
    >)
        requires
            old(self).wf(),
            old(self).distinct_ids(),
            child.wf(),
            forall|id: u64| #[trigger] old(self).count_id(id) + child.count_id(id) <= 1,
        ensures
            final(self).id == old(self).id,
            final(self).kind == old(self).kind,
            final(self).ratio == old(self).ratio,
            r is Ok <==> old(self).insert_allowed(parent_id, child, index as int),
            r is Ok ==> final(self).wf() && (forall|id: u64|
                #[trigger] final(self).count_id(id) == old(self).count_id(id) + child.count_id(
                    id,
                )) && Self::inserted_effect(*old(self), *final(self), parent_id, child, index as int),
            r matches Err((e, c)) ==> same_tree(*final(self), *old(self)) && c == child && (e
                == WmError::ContainerNotFound <==> !old(self).contains_id(parent_id)) && (e
                is ContainerNotFound || e is InvalidOperation),
        decreases *old(self),
    {
        let ghost whole = *old(self);
        if self.id == parent_id {
            let n = self.children.len();
            let allowed = kind_allows(self.kind, child.kind) && index <= n && n < 0x0100_0000;
            if !allowed {
                proof {
                    lemma_same_tree_refl(whole);
                }
                return Err((WmError::InvalidOperation, child));
            }
            let cid = child.id;
            let ghost childg = child;
            let ghost before = self.children@;
            proof {
                assert(child.count_id(cid) >= 1);
                assert(whole.count_id(cid) == 0);
                assert forall|j: int| 0 <= j < before.len() implies (#[trigger] before[j]).count_id(
                    cid,
                ) == 0 by {
                    lemma_count_id_in_at(before, j, cid);
                }
            }
            self.children.insert(index, child);
            let ghost inserted = self.children@;
            proof {
                assert(inserted == before.insert(index as int, childg));
                lemma_wf_in_iff(before);
                assert forall|j: int|
                    0 <= j < inserted.len() implies (#[trigger] inserted[j]).ratio
                    <= RATIO_UNIT by {
                    if j < index {
                        assert(inserted[j] == before[j]);
                        assert(whole.children@[j].wf());
                    } else if j > index {
                        assert(inserted[j] == before[j - 1]);
                        assert(whole.children@[j - 1].wf());
                    }
                }
                assert forall|j: int, k: int|
                    0 <= j < k < inserted.len() && Some(cid) == Some(
                        #[trigger] inserted[j].id,
                    ) implies Some(cid) != Some(#[trigger] inserted[k].id) by {
                    assert(forall|m: int|
                        0 <= m < inserted.len() && m != index ==> (
                        #[trigger] inserted[m]).count_id(cid) == 0);
                    assert forall|m: int|
                        0 <= m < inserted.len() && m != index implies (#[trigger] inserted[m]).id
                        != cid by {
                        assert(inserted[m].count_id(inserted[m].id) >= 1);
                    }
                }
            }
            // Pick the new child's share: an equal split among the
            // participants, the rest rescaled in proportion.
            let mut kp: usize = 1;
            let mut i: usize = 0;
            let m = self.children.len();
            while i < m
                invariant
                    0 <= i <= m,
                    m == self.children@.len(),
                    self.children@ == inserted,
                    1 <= kp <= i + 1,
                decreases m - i,
            {
                if self.children[i].participates() && self.children[i].id != cid {
                    kp += 1;
                }
                i += 1;
            }
            let share = RATIO_UNIT / (kp as u32);
            rescale_ratios(&mut self.children, Some(cid), share);
            proof {
                let after = self.children@;
                assert forall|id: u64| true implies #[trigger] (*self).count_id(id)
                    == whole.count_id(id) + childg.count_id(id) by {
                    assert forall|j: int| 0 <= j < after.len() implies (
                    #[trigger] after[j]).count_id(id) == inserted[j].count_id(id) by {
                        lemma_count_same_shape(after[j], inserted[j], id);
                    }
                    lemma_count_id_in_pointwise(after, inserted, id);
                    lemma_count_id_in_insert(before, index as int, childg, id);
                }
                assert((*self).wf()) by {
                    assert forall|j: int| 0 <= j < after.len() implies (#[trigger] after[j]).wf()
                        && Container::kind_allows_child(whole.kind, after[j].kind) by {
                        if j < index {
                            assert(inserted[j] == before[j]);
                            assert(whole.children@[j].wf());
                        } else if j > index {
                            assert(inserted[j] == before[j - 1]);
                            assert(whole.children@[j - 1].wf());
                        }
                        assert(inserted[j].wf());
                        lemma_wf_same_shape(inserted[j], after[j]);
                    }
                    lemma_wf_in_iff(after);
                }
                assert(Container::inserted_effect(whole, *self, parent_id, childg, index as int))
                    by {
                    assert forall|j: int|
                        0 <= j < after.len() && j != index implies (#[trigger] after[j]).count_id(
                        cid,
                    ) == 0 by {
                        lemma_count_same_shape(after[j], inserted[j], cid);
                        if j < index {
                            assert(inserted[j] == before[j]);
                        } else {
                            assert(inserted[j] == before[j - 1]);
                        }
                    }
                    assert(after[index as int].id == cid) by {
                        lemma_count_same_shape(after[index as int], inserted[index as int], cid);
                    }
                    lemma_subtree_first_hit(after, index as int, cid);
                    assert(whole.id != cid) by {
                        if whole.id == cid {
                            assert(whole.count_id(cid) >= 1);
                        }
                    }
                    assert((*self).subtree(cid) == Some(after[index as int]));
                    assert(after[index as int].kind == childg.kind && after[index as int].children@
                        == childg.children@);
                    assert((*self).subtree(parent_id) == Some(*self));
                    assert(whole.subtree(parent_id) == Some(whole));
                    assert(forall|j: int|
                        0 <= j < after.len() ==> (#[trigger] after[j]).id == inserted[j].id);
                }
            }
            return Ok(());
        }
        let n = self.children.len();
        let mut carried = child;
        let mut i: usize = 0;
        proof {
            assert(whole.children@.skip(0) =~= whole.children@);
        }
        while i < n
            invariant
                0 <= i <= n,
                carried == child,
                self.id == whole.id,
                self.kind == whole.kind,
                self.ratio == whole.ratio,
                n == self.children@.len(),
                whole.children@.len() == n,
                forall|j: int| i <= j < n ==> #[trigger] self.children@[j] == whole.children@[j],
                forall|j: int|
                    0 <= j < i ==> same_tree(#[trigger] self.children@[j], whole.children@[j]),
                subtree_in(whole.children@, parent_id) == subtree_in(
                    whole.children@.skip(i as int),
                    parent_id,
                ),
            decreases n - i,
        {
            proof {
                lemma_subtree_in_skip(whole.children@, i as int, parent_id);
                lemma_wf_in_iff(whole.children@);
                assert(whole.children@[i as int].wf());
                assert forall|id: u64| true implies #[trigger] whole.children@[i as int].count_id(
                    id,
                ) + carried.count_id(id) <= 1 by {
                    lemma_count_id_in_at(whole.children@, i as int, id);
                    assert(whole.count_id(id) >= count_id_in(whole.children@, id));
                }
                assert(whole.children@[i as int].distinct_ids());
            }
            let ghost base = self.children@;
            let ghost oldch = self.children@[i as int];
            let mut ch = self.children.remove(i);
            let res = ch.insert_rec(parent_id, carried, index);
            let ghost newch = ch;
            self.children.insert(i, ch);
            proof {
                assert(self.children@ =~= base.update(i as int, newch));
                assert(oldch == whole.children@[i as int]);
            }
            match res {
                Ok(()) => {
                    proof {
                        let after = self.children@;
                        assert forall|j: int|
                            0 <= j < n && j != i implies #[trigger] after[j] == base[j] by {}
                        lemma_wf_in_iff(whole.children@);
                        assert forall|j: int|
                            0 <= j < n && j != i implies same_tree(
                            #[trigger] after[j],
                            whole.children@[j],
                        ) && after[j].wf() && after[j].kind == whole.children@[j].kind
                            && after[j].participates_in_tiling()
                            == whole.children@[j].participates_in_tiling()
                            && after[j].tiling_ratio() == whole.children@[j].tiling_ratio() by {
                            if j > i {
                                assert(after[j] == whole.children@[j]);
                                lemma_same_tree_refl(after[j]);
                            } else {
                                assert(same_tree(base[j], whole.children@[j]));
                                crate::tree::lemma_same_tree_wf(base[j], whole.children@[j]);
                            }
                        }
                        assert forall|id: u64| true implies #[trigger] (*self).count_id(id)
                            == whole.count_id(id) + child.count_id(id) by {
                            lemma_count_id_in_update(base, i as int, newch, id);
                            assert forall|j: int| 0 <= j < n implies (#[trigger] base[j]).count_id(
                                id,
                            ) == whole.children@[j].count_id(id) by {
                                if j < i {
                                    crate::tree::lemma_same_tree_count(
                                        base[j],
                                        whole.children@[j],
                                        id,
                                    );
                                }
                            }
                            lemma_count_id_in_pointwise(base, whole.children@, id);
                            assert(base[i as int].count_id(id) == oldch.count_id(id));
                        }
                        assert(after[i as int] == newch && newch.kind == oldch.kind && newch.ratio
                            == oldch.ratio);
                        assert((*self).wf()) by {
                            assert(newch.wf());
                            assert forall|j: int| 0 <= j < after.len() implies (
                            #[trigger] after[j]).wf() && Container::kind_allows_child(
                                whole.kind,
                                after[j].kind,
                            ) by {}
                            assert forall|j: int|
                                0 <= j < after.len() implies (#[trigger] after[j]).tiling_ratio()
                                == whole.children@[j].tiling_ratio() by {}
                            lemma_ratio_sum_pointwise(after, whole.children@);
                            lemma_wf_in_iff(after);
                            assert(crate::tree::has_tiling_child(after)
                                == crate::tree::has_tiling_child(whole.children@)) by {
                                if crate::tree::has_tiling_child(after) {
                                    let w = choose|w: int|
                                        0 <= w < after.len() && #[trigger] after[w].participates_in_tiling();
                                    assert(whole.children@[w].participates_in_tiling());
                                }
                                if crate::tree::has_tiling_child(whole.children@) {
                                    let w = choose|w: int|
                                        0 <= w < whole.children@.len()
                                            && #[trigger] whole.children@[w].participates_in_tiling();
                                    assert(after[w].participates_in_tiling());
                                }
                            }
                        }
                        lemma_subtree_counts(whole, parent_id);
                        assert(Container::inserted_effect(
                            whole,
                            *self,
                            parent_id,
                            child,
                            index as int,
                        )) by {
                            let cid = child.id;
                            assert(whole.count_id(cid) == 0) by {
                                assert(child.count_id(cid) >= 1);
                            }
                            assert forall|j: int|
                                0 <= j < n && j != i implies (#[trigger] after[j]).count_id(cid)
                                == 0 by {
                                lemma_count_id_in_at(whole.children@, j, cid);
                                if j < i {
                                    crate::tree::lemma_same_tree_count(
                                        base[j],
                                        whole.children@[j],
                                        cid,
                                    );
                                } else {
                                    assert(after[j] == whole.children@[j]);
                                }
                            }
                            lemma_subtree_hit_sub(after, i as int, cid, newch);
                            assert(whole.id != cid) by {
                                if whole.id == cid {
                                    assert(whole.count_id(cid) >= 1);
                                }
                            }
                            assert(oldch.count_id(parent_id) >= 1) by {
                                lemma_subtree_counts(oldch, parent_id);
                            }
                            assert forall|j: int|
                                0 <= j < n && j != i implies (#[trigger] after[j]).count_id(
                                parent_id,
                            ) == 0 by {
                                if j < i {
                                    crate::tree::lemma_same_tree_count(
                                        base[j],
                                        whole.children@[j],
                                        parent_id,
                                    );
                                } else {
                                    assert(after[j] == whole.children@[j]);
                                }
                                if whole.children@[j].count_id(parent_id) >= 1 {
                                    if j < i {
                                        lemma_two_counts(whole.children@, j, i as int, parent_id);
                                    } else {
                                        lemma_two_counts(whole.children@, i as int, j, parent_id);
                                    }
                                    assert(whole.count_id(parent_id) >= 2);
                                    assert(whole.count_id(parent_id) <= 1);
                                }
                            }
                            lemma_subtree_hit_sub(after, i as int, parent_id, newch);
                            assert forall|j: int|
                                0 <= j < n && j != i implies (
                            #[trigger] whole.children@[j]).count_id(parent_id) == 0 by {
                                if whole.children@[j].count_id(parent_id) >= 1 {
                                    if j < i {
                                        lemma_two_counts(whole.children@, j, i as int, parent_id);
                                    } else {
                                        lemma_two_counts(whole.children@, i as int, j, parent_id);
                                    }
                                    assert(whole.count_id(parent_id) >= 2);
                                    assert(whole.count_id(parent_id) <= 1);
                                }
                            }
                            lemma_subtree_hit_sub(whole.children@, i as int, parent_id, oldch);
                        }
                    }
                    return Ok(());
                },
                Err((e, c)) => {
                    carried = c;
                    proof {
                        assert(same_tree(newch, oldch));
                        assert forall|j: int|
                            0 <= j < i + 1 implies same_tree(
                            #[trigger] self.children@[j],
                            whole.children@[j],
                        ) by {
                            if j < i {
                                assert(self.children@[j] == base[j]);
                            } else {
                                assert(self.children@[j] == newch);
                            }
                        }
                    }
                    if matches!(e, WmError::InvalidOperation) {
                        proof {
                            lemma_subtree_counts(whole.children@[i as int], parent_id);
                            lemma_subtree_counts(whole, parent_id);
                            lemma_count_id_in_at(whole.children@, i as int, parent_id);
                            lemma_finish_same_tree(*self, whole, i as int + 1);
                        }
                        return Err((WmError::InvalidOperation, carried));
                    }
                    proof {
                        lemma_subtree_counts(whole.children@[i as int], parent_id);
                    }
                },
            }
            i += 1;
        }
        proof {
            assert(whole.children@.skip(n as int) =~= Seq::<Container>::empty());
            lemma_subtree_counts(whole, parent_id);
            lemma_finish_same_tree(*self, whole, n as int);
        }
        Err((WmError::ContainerNotFound, carried))
    }
}

/// In a detach loop, the processed prefix of the working child list is
/// structurally equal to the reference list, the rest untouched, so all
/// counts agree pointwise.
proof fn lemma_detach_base_counts(base: Seq<Container>, reference: Seq<Container>, i: int)
    requires
        base.len() == reference.len(),
        0 <= i <= base.len(),
        forall|j: int| 0 <= j < i ==> same_tree(#[trigger] base[j], reference[j]),
        forall|j: int| i <= j < base.len() ==> #[trigger] base[j] == reference[j],
    ensures
        forall|cid: u64, j: int|
            0 <= j < base.len() ==> (#[trigger] base[j].count_id(cid)) == reference[j].count_id(
                cid,
            ),
{
    assert forall|cid: u64, j: int| 0 <= j < base.len() implies (#[trigger] base[j].count_id(cid))
        == reference[j].count_id(cid) by {
        if j < i {
            crate::tree::lemma_same_tree_count(base[j], reference[j], cid);
        }
    }
}

/// Assembles `same_tree` for a node whose first `i` children are
/// structurally equal to the reference and whose rest are untouched.
proof fn lemma_finish_same_tree(a: Container, b: Container, i: int)
    requires
        a.id == b.id,
        a.kind == b.kind,
        a.ratio == b.ratio,
        a.children@.len() == b.children@.len(),
        0 <= i <= a.children@.len(),
        forall|j: int| 0 <= j < i ==> same_tree(#[trigger] a.children@[j], b.children@[j]),
        forall|j: int|
            i <= j < a.children@.len() ==> #[trigger] a.children@[j] == b.children@[j],
    ensures
        same_tree(a, b),
{
    lemma_same_tree_in_pointwise(a.children@, b.children@);
    assert forall|j: int| 0 <= j < a.children@.len() implies same_tree(
        #[trigger] a.children@[j],
        b.children@[j],
    ) by {
        if j >= i {
            lemma_same_tree_refl(a.children@[j]);
        }
    }
}


impl Container {
    /// Detaches the subtree rooted at `id` (a strict descendant) and
    /// returns it. The emptied sibling group is renormalized; a split
    /// container left childless collapses, cascading upward. On error the
    /// tree is structurally unchanged.
    pub fn detach(&mut self, id: u64) -> (r: Result<Container, WmError>)
        requires
            old(self).wf(),
            old(self).distinct_ids(),
            id != old(self).id,
            !(old(self).kind is Split),
        ensures
            final(self).id == old(self).id,
            final(self).kind == old(self).kind,
            final(self).ratio == old(self).ratio,
            r is Ok <==> old(self).contains_id(id),
            r matches Ok(d) ==> d.id == id && d.wf() && final(self).wf() && !final(self).contains_id(id) && (forall|cid: u64|
                #[trigger] final(self).count_id(cid) + d.count_id(cid) <= old(self).count_id(cid)),
            r matches Err(e) ==> same_tree(*final(self), *old(self)) && e is ContainerNotFound
                && !old(self).contains_id(id),
    {
        let ghost whole = *old(self);
        match self.detach_rec(id) {
            Some(d) => {
                proof {
                    assert(d.count_id(id) >= 1);
                    assert(whole.count_id(id) <= 1);
                    assert((*self).count_id(id) + d.count_id(id) <= whole.count_id(id));
                }
                Ok(d)
            },
            None => Err(WmError::ContainerNotFound),
        }
    }

    /// Recursive worker for `detach`.
    #[verifier::loop_isolation(false)]
    fn detach_rec(&mut self, id: u64) -> (r: Option<Container>)
        requires
            old(self).wf(),
            id != old(self).id,
        ensures
            final(self).id == old(self).id,
            final(self).kind == old(self).kind,
            final(self).ratio == old(self).ratio,
            r is Some <==> old(self).contains_id(id),
            r matches Some(d) ==> d.id == id && d.wf() && final(self).wf_but_empty_split() && (
            forall|cid: u64|
                #[trigger] final(self).count_id(cid) + d.count_id(cid) <= old(self).count_id(cid)),
            r is None ==> same_tree(*final(self), *old(self)),
        decreases *old(self),
    {
        let ghost whole = *old(self);
        let n = self.children.len();
        let mut i: usize = 0;
        proof {
            assert(whole.children@.skip(0) =~= whole.children@);
        }
        while i < n
            invariant
                0 <= i <= n,
                self.id == whole.id,
                self.kind == whole.kind,
                self.ratio == whole.ratio,
                n == self.children@.len(),
                whole.children@.len() == n,
                forall|j: int| i <= j < n ==> #[trigger] self.children@[j] == whole.children@[j],
                forall|j: int|
                    0 <= j < i ==> same_tree(#[trigger] self.children@[j], whole.children@[j]),
                count_id_in(whole.children@, id) == count_id_in(
                    whole.children@.skip(i as int),
                    id,
                ),
            decreases n - i,
        {
            proof {
                crate::tree::lemma_count_id_in_skip(whole.children@, i as int, id);
                lemma_wf_in_iff(whole.children@);
                assert(whole.children@[i as int].wf());
            }
            let ghost base = self.children@;
            if self.children[i].id == id {
                let d = self.children.remove(i);
                let ghost removed = self.children@;
                proof {
                    assert(removed =~= base.remove(i as int));
                    assert(d == whole.children@[i as int]);
                    lemma_detach_base_counts(base, whole.children@, i as int);
                    assert forall|j: int| 0 <= j < removed.len() implies (
                    #[trigger] removed[j]).ratio <= RATIO_UNIT && removed[j].wf() by {
                        if j < i {
                            assert(removed[j] == base[j]);
                            crate::tree::lemma_same_tree_wf(base[j], whole.children@[j]);
                        } else {
                            assert(removed[j] == base[j + 1]);
                        }
                    }
                }
                rescale_ratios(&mut self.children, None, 0);
                proof {
                    let after = self.children@;
                    assert forall|cid: u64| true implies #[trigger] (*self).count_id(cid)
                        + d.count_id(cid) <= whole.count_id(cid) by {
                        assert forall|j: int| 0 <= j < after.len() implies (
                        #[trigger] after[j]).count_id(cid) == removed[j].count_id(cid) by {
                            lemma_count_same_shape(after[j], removed[j], cid);
                        }
                        lemma_count_id_in_pointwise(after, removed, cid);
                        lemma_count_id_in_remove(base, i as int, cid);
                        assert forall|j: int| 0 <= j < n implies (#[trigger] base[j]).count_id(cid)
                            == whole.children@[j].count_id(cid) by {
                            if j < i {
                                crate::tree::lemma_same_tree_count(
                                    base[j],
                                    whole.children@[j],
                                    cid,
                                );
                            }
                        }
                        lemma_count_id_in_pointwise(base, whole.children@, cid);
                    }
                    assert((*self).wf_but_empty_split()) by {
                        assert forall|j: int| 0 <= j < after.len() implies (
                        #[trigger] after[j]).wf() && Container::kind_allows_child(
                            whole.kind,
                            after[j].kind,
                        ) by {
                            assert(removed[j].wf());
                            lemma_wf_same_shape(removed[j], after[j]);
                            if j < i {
                                assert(removed[j] == base[j]);
                                crate::tree::lemma_same_tree_wf(base[j], whole.children@[j]);
                            } else {
                                assert(removed[j] == base[j + 1]);
                            }
                        }
                        lemma_wf_in_iff(after);
                    }
                    assert(d.count_id(id) >= 1);
                    lemma_count_id_in_at(whole.children@, i as int, id);
                }
                return Some(d);
            }
            let ghost oldch = self.children@[i as int];
            let mut ch = self.children.remove(i);
            let res = ch.detach_rec(id);
            let ghost newch = ch;
            match res {
                Some(d) => {
                    proof {
                        lemma_detach_base_counts(base, whole.children@, i as int);
                    }
                    let collapse = matches!(ch.kind, ContainerKind::Split { .. })
                        && ch.children.len() == 0;
                    if !collapse {
                        self.children.insert(i, ch);
                        proof {
                            let after = self.children@;
                            assert(after =~= base.update(i as int, newch));
                            assert(newch.wf()) by {
                                assert(newch.wf_but_empty_split());
                            }
                            assert forall|cid: u64| true implies #[trigger] (*self).count_id(cid)
                                + d.count_id(cid) <= whole.count_id(cid) by {
                                lemma_count_id_in_update(base, i as int, newch, cid);
                                lemma_count_id_in_pointwise(base, whole.children@, cid);
                            }
                            assert((*self).wf_but_empty_split()) by {
                                lemma_wf_in_iff(whole.children@);
                                assert forall|j: int| 0 <= j < after.len() implies (
                                #[trigger] after[j]).wf() && Container::kind_allows_child(
                                    whole.kind,
                                    after[j].kind,
                                ) && after[j].tiling_ratio()
                                    == whole.children@[j].tiling_ratio() by {
                                    if j != i {
                                        assert(after[j] == base[j]);
                                        if j < i {
                                            crate::tree::lemma_same_tree_wf(
                                                base[j],
                                                whole.children@[j],
                                            );
                                        }
                                    } else {
                                        assert(after[j] == newch);
                                        assert(newch.kind == oldch.kind && newch.ratio
                                            == oldch.ratio);
                                    }
                                }
                                lemma_wf_in_iff(after);
                                lemma_ratio_sum_pointwise(after, whole.children@);
                                assert(crate::tree::has_tiling_child(after)
                                    == crate::tree::has_tiling_child(whole.children@)) by {
                                    if crate::tree::has_tiling_child(after) {
                                        let w = choose|w: int|
                                            0 <= w < after.len() && #[trigger] after[w].participates_in_tiling();
                                        assert(whole.children@[w].participates_in_tiling());
                                    }
                                    if crate::tree::has_tiling_child(whole.children@) {
                                        let w = choose|w: int|
                                            0 <= w < whole.children@.len()
                                                && #[trigger] whole.children@[w].participates_in_tiling();
                                        assert(after[w].participates_in_tiling());
                                    }
                                }
                            }
                            lemma_count_id_in_at(whole.children@, i as int, id);
                        }
                    } else {
                        let ghost removed = self.children@;
                        proof {
                            assert(removed =~= base.remove(i as int));
                            assert forall|j: int| 0 <= j < removed.len() implies (
                            #[trigger] removed[j]).ratio <= RATIO_UNIT && removed[j].wf() by {
                                if j < i {
                                    assert(removed[j] == base[j]);
                                    crate::tree::lemma_same_tree_wf(base[j], whole.children@[j]);
                                } else {
                                    assert(removed[j] == base[j + 1]);
                                }
                            }
                        }
                        rescale_ratios(&mut self.children, None, 0);
                        proof {
                            let after = self.children@;
                            assert forall|cid: u64| true implies #[trigger] (*self).count_id(cid)
                                + d.count_id(cid) <= whole.count_id(cid) by {
                                assert forall|j: int| 0 <= j < after.len() implies (
                                #[trigger] after[j]).count_id(cid) == removed[j].count_id(cid) by {
                                    lemma_count_same_shape(after[j], removed[j], cid);
                                }
                                lemma_count_id_in_pointwise(after, removed, cid);
                                lemma_count_id_in_remove(base, i as int, cid);
                                lemma_count_id_in_pointwise(base, whole.children@, cid);
                                assert(newch.count_id(cid) + d.count_id(cid) <= oldch.count_id(
                                    cid,
                                ));
                            }
                            assert((*self).wf_but_empty_split()) by {
                                lemma_wf_in_iff(whole.children@);
                                assert forall|j: int| 0 <= j < after.len() implies (
                                #[trigger] after[j]).wf() && Container::kind_allows_child(
                                    whole.kind,
                                    after[j].kind,
                                ) by {
                                    assert(removed[j].wf());
                                    lemma_wf_same_shape(removed[j], after[j]);
                                    if j < i {
                                        assert(removed[j] == base[j]);
                                        crate::tree::lemma_same_tree_wf(
                                            base[j],
                                            whole.children@[j],
                                        );
                                    } else {
                                        assert(removed[j] == base[j + 1]);
                                    }
                                }
                                lemma_wf_in_iff(after);
                            }
                            lemma_count_id_in_at(whole.children@, i as int, id);
                        }
                    }
                    return Some(d);
                },
                None => {
                    self.children.insert(i, ch);
                    proof {
                        assert(self.children@ =~= base.update(i as int, newch));
                        assert(same_tree(newch, oldch));
                        assert forall|j: int|
                            0 <= j < i + 1 implies same_tree(
                            #[trigger] self.children@[j],
                            whole.children@[j],
                        ) by {
                            if j < i {
                                assert(self.children@[j] == base[j]);
                            } else {
                                assert(self.children@[j] == newch);
                            }
                        }
                    }
                },
            }
            i += 1;
        }
        proof {
            assert(whole.children@.skip(n as int) =~= Seq::<Container>::empty());
            lemma_finish_same_tree(*self, whole, n as int);
        }
        None
    }
}


/// The new tree equals the old with exactly one window's attribute
/// fields replaced: every node keeps its identifier, ratio and children
/// shape, and only the node `id` changes kind, to the patched one.
pub open spec fn patched_tree(a: Container, b: Container, id: u64, p: WindowPatch) -> bool
    decreases a,
{
    &&& a.id == b.id
    &&& a.ratio == b.ratio
    &&& (if a.id == id {
        b.kind == Container::patched_kind(a.kind, p)
    } else {
        a.kind == b.kind
    })
    &&& patched_in(a.children@, b.children@, id, p)
}

/// `patched_tree` over two child lists.
pub open spec fn patched_in(s1: Seq<Container>, s2: Seq<Container>, id: u64, p: WindowPatch) -> bool
    decreases s1,
{
    s1.len() == s2.len() && (s1.len() == 0 || (patched_tree(s1[0], s2[0], id, p) && patched_in(
        s1.drop_first(),
        s2.drop_first(),
        id,
        p,
    )))
}

/// Child lists are patched exactly when they are pointwise so.
proof fn lemma_patched_in_pointwise(s1: Seq<Container>, s2: Seq<Container>, id: u64, p: WindowPatch)
    ensures
        patched_in(s1, s2, id, p) <==> (s1.len() == s2.len() && (forall|j: int|
            0 <= j < s1.len() ==> patched_tree(#[trigger] s1[j], s2[j], id, p))),
    decreases s1,
{
    if s1.len() > 0 && s1.len() == s2.len() {
        lemma_patched_in_pointwise(s1.drop_first(), s2.drop_first(), id, p);
        assert(forall|j: int|
            0 <= j < s1.drop_first().len() ==> #[trigger] s1.drop_first()[j] == s1[j + 1]
                && s2.drop_first()[j] == s2[j + 1]);
        if patched_in(s1, s2, id, p) {
            assert forall|j: int| 0 <= j < s1.len() implies patched_tree(
                #[trigger] s1[j],
                s2[j],
                id,
                p,
            ) by {
                if j > 0 {
                    assert(patched_tree(s1.drop_first()[j - 1], s2.drop_first()[j - 1], id, p));
                }
            }
        }
    }
}

/// A subtree without the patched identifier is patched exactly when it
/// is structurally unchanged.
proof fn lemma_same_tree_patched(a: Container, b: Container, id: u64, p: WindowPatch)
    requires
        same_tree(a, b),
        a.count_id(id) == 0,
    ensures
        patched_tree(a, b, id, p),
    decreases a,
{
    assert(a.id != id) by {
        if a.id == id {
            assert(a.count_id(id) >= 1);
        }
    }
    lemma_same_tree_in_pointwise(a.children@, b.children@);
    lemma_patched_in_pointwise(a.children@, b.children@, id, p);
    assert forall|j: int| 0 <= j < a.children@.len() implies patched_tree(
        #[trigger] a.children@[j],
        b.children@[j],
        id,
        p,
    ) by {
        lemma_count_id_in_at(a.children@, j, id);
        lemma_same_tree_patched(a.children@[j], b.children@[j], id, p);
    }
}

/// The new attributes a window update applies.
#[derive(Clone, Copy, Debug, PartialEq, Eq, Structural)]
pub struct WindowPatch {
    pub tiling_state: TilingState,
    pub display_state: DisplayState,
    pub active_drag: Option<ActiveDrag>,
}

impl Container {
    /// The kind a window node has after a patch.
    pub open spec fn patched_kind(k: ContainerKind, p: WindowPatch) -> ContainerKind {
        match k {
            ContainerKind::Window { handle, .. } => ContainerKind::Window {
                handle,
                tiling_state: p.tiling_state,
                display_state: p.display_state,
                active_drag: p.active_drag,
            },
            _ => k,
        }
    }

    /// Whether `id` names a window node of this tree.
    pub open spec fn is_window_id(self, id: u64) -> bool {
        match self.subtree(id) {
            Some(n) => n.kind is Window,
            None => false,
        }
    }

    /// Replaces the tiling state, display state and drag of the window
    /// `id`, renormalizing its sibling group (its tiling participation
    /// may have changed). On a miss, or when `id` is no window, the tree
    /// is structurally unchanged.
    #[verifier::loop_isolation(false)]
    pub fn set_window_fields(&mut self, id: u64, patch: WindowPatch) -> (r: bool)
        requires
            old(self).wf(),
            old(self).distinct_ids(),
            !(old(self).kind is Window),
        ensures
            final(self).id == old(self).id,
            final(self).kind == old(self).kind,
            final(self).ratio == old(self).ratio,
            r == old(self).is_window_id(id),
            r ==> final(self).wf() && (forall|cid: u64|
                #[trigger] final(self).count_id(cid) == old(self).count_id(cid)) && (match final(self).subtree(id) {
                Some(w) => w.id == id && w.kind == Self::patched_kind(
                    old(self).subtree(id).unwrap().kind,
                    patch,
                ),
                None => false,
            }),
            r && (match old(self).subtree(id) {
                Some(w) => w.participates_in_tiling() == (patch.tiling_state is Tiling),
                None => false,
            }) ==> patched_tree(*old(self), *final(self), id, patch),
            !r ==> same_tree(*final(self), *old(self)),
        decreases *old(self),
    {
        let ghost whole = *old(self);
        let n = self.children.len();
        let mut i: usize = 0;
        proof {
            assert(whole.children@.skip(0) =~= whole.children@);
        }
        while i < n
            invariant
                0 <= i <= n,
                self.id == whole.id,
                self.kind == whole.kind,
                self.ratio == whole.ratio,
                n == self.children@.len(),
                whole.children@.len() == n,
                forall|j: int| i <= j < n ==> #[trigger] self.children@[j] == whole.children@[j],
                forall|j: int|
                    0 <= j < i ==> same_tree(#[trigger] self.children@[j], whole.children@[j]),
                subtree_in(whole.children@, id) == subtree_in(
                    whole.children@.skip(i as int),
                    id,
                ),
            decreases n - i,
        {
            proof {
                lemma_subtree_in_skip(whole.children@, i as int, id);
                lemma_wf_in_iff(whole.children@);
                assert(whole.children@[i as int].wf());
            }
            let ghost base = self.children@;
            if self.children[i].id == id {
                let hit = matches!(self.children[i].kind, ContainerKind::Window { .. });
                if !hit {
                    proof {
                        lemma_finish_same_tree(*self, whole, i as int);
                    }
                    return false;
                }
                let mut c = self.children.remove(i);
                let ghost oldnode = c;
                let was_tiling = matches!(
                    c.kind,
                    ContainerKind::Window { tiling_state: TilingState::Tiling, .. }
                );
                let same_part = was_tiling == matches!(patch.tiling_state, TilingState::Tiling);
                c.kind = match c.kind {
                    ContainerKind::Window { handle, .. } => ContainerKind::Window {
                        handle,
                        tiling_state: patch.tiling_state,
                        display_state: patch.display_state,
                        active_drag: patch.active_drag,
                    },
                    other => other,
                };
                let ghost newnode = c;
                self.children.insert(i, c);
                let ghost patched = self.children@;
                proof {
                    assert(patched =~= base.update(i as int, newnode));
                    lemma_detach_base_counts(base, whole.children@, i as int);
                    assert forall|j: int| 0 <= j < n implies (#[trigger] patched[j]).ratio
                        <= RATIO_UNIT && patched[j].wf() by {
                        if j != i {
                            assert(patched[j] == base[j]);
                            if j < i {
                                crate::tree::lemma_same_tree_wf(base[j], whole.children@[j]);
                            }
                        } else {
                            assert(patched[j] == newnode);
                            assert(newnode.wf()) by {
                                assert(oldnode.children@.len() == 0);
                                assert(newnode.children@.len() == 0);
                                assert(wf_in(newnode.children@));
                                assert(newnode.node_ok());
                            }
                        }
                    }
                    assert forall|j: int, k: int|
                        0 <= j < k < n && Some(id) == Some(#[trigger] patched[j].id) implies Some(
                            id,
                        ) != Some(#[trigger] patched[k].id) by {
                        if patched[j].id == id && patched[k].id == id {
                            assert(base[j].count_id(id) >= 1 && base[k].count_id(id) >= 1) by {
                                assert(patched[j].count_id(patched[j].id) >= 1);
                                assert(patched[k].count_id(patched[k].id) >= 1);
                                lemma_count_same_shape(patched[j], base[j], id);
                                lemma_count_same_shape(patched[k], base[k], id);
                            }
                            lemma_two_counts(base, j, k, id);
                            lemma_count_id_in_pointwise(base, whole.children@, id);
                            assert(whole.count_id(id) >= 2);
                            assert(whole.count_id(id) <= 1);
                        }
                    }
                }
                if !same_part {
                    // The window joined or left the tiling group: give it
                    // an equal share and rescale its siblings.
                    let m2 = self.children.len();
                    let mut kp: usize = 1;
                    let mut q: usize = 0;
                    while q < m2
                        invariant
                            0 <= q <= m2,
                            m2 == self.children@.len(),
                            self.children@ == patched,
                            1 <= kp <= q + 1,
                        decreases m2 - q,
                    {
                        if self.children[q].participates() && self.children[q].id != id {
                            kp += 1;
                        }
                        q += 1;
                    }
                    rescale_ratios(&mut self.children, Some(id), RATIO_UNIT / (kp as u32));
                }
                proof {
                    let after = self.children@;
                    if same_part {
                        assert(after == patched);
                        assert(oldnode.participates_in_tiling()
                            == newnode.participates_in_tiling());
                    }
                    assert forall|cid: u64| true implies #[trigger] (*self).count_id(cid)
                        == whole.count_id(cid) by {
                        assert forall|j: int| 0 <= j < after.len() implies (
                        #[trigger] after[j]).count_id(cid) == base[j].count_id(cid) by {
                            lemma_count_same_shape(after[j], patched[j], cid);
                            lemma_count_same_shape(patched[j], base[j], cid);
                        }
                        lemma_count_id_in_pointwise(after, base, cid);
                        lemma_count_id_in_pointwise(base, whole.children@, cid);
                    }
                    assert((*self).wf()) by {
                        assert forall|j: int| 0 <= j < after.len() implies (
                        #[trigger] after[j]).wf() && Container::kind_allows_child(
                            whole.kind,
                            after[j].kind,
                        ) by {
                            assert(patched[j].wf());
                            lemma_wf_same_shape(patched[j], after[j]);
                            if j != i {
                                assert(patched[j] == base[j]);
                                if j < i {
                                    crate::tree::lemma_same_tree_wf(base[j], whole.children@[j]);
                                }
                            }
                        }
                        lemma_wf_in_iff(after);
                        if same_part {
                            assert forall|j: int|
                                0 <= j < after.len() implies (#[trigger] after[j]).tiling_ratio()
                                == whole.children@[j].tiling_ratio() by {
                                if j != i {
                                    assert(after[j] == base[j]);
                                    if j < i {
                                        assert(same_tree(base[j], whole.children@[j]));
                                    }
                                } else {
                                    assert(after[j] == newnode);
                                    assert(newnode.ratio == oldnode.ratio);
                                    assert(newnode.participates_in_tiling()
                                        == oldnode.participates_in_tiling());
                                }
                            }
                            lemma_ratio_sum_pointwise(after, whole.children@);
                            assert(crate::tree::has_tiling_child(after)
                                == crate::tree::has_tiling_child(whole.children@)) by {
                                if crate::tree::has_tiling_child(after) {
                                    let w = choose|w: int|
                                        0 <= w < after.len() && #[trigger] after[w].participates_in_tiling();
                                    assert(whole.children@[w].participates_in_tiling());
                                }
                                if crate::tree::has_tiling_child(whole.children@) {
                                    let w = choose|w: int|
                                        0 <= w < whole.children@.len()
                                            && #[trigger] whole.children@[w].participates_in_tiling();
                                    assert(after[w].participates_in_tiling());
                                }
                            }
                        }
                    }
                    assert((*self).subtree(id) == Some(after[i as int])) by {
                        assert forall|j: int| 0 <= j < n && j != i implies (
                        #[trigger] after[j]).count_id(id) == 0 by {
                            lemma_count_same_shape(after[j], patched[j], id);
                            lemma_count_same_shape(patched[j], base[j], id);
                            if base[j].count_id(id) >= 1 {
                                assert(base[i as int].count_id(id) >= 1) by {
                                    lemma_count_same_shape(patched[i as int], base[i as int], id);
                                    assert(patched[i as int].count_id(id) >= 1);
                                }
                                if j < i {
                                    lemma_two_counts(base, j, i as int, id);
                                } else {
                                    lemma_two_counts(base, i as int, j, id);
                                }
                                lemma_count_id_in_pointwise(base, whole.children@, id);
                                assert(whole.count_id(id) >= 2);
                                assert(whole.count_id(id) <= 1);
                            }
                        }
                        lemma_subtree_first_hit(after, i as int, id);
                        assert(whole.id != id) by {
                            if whole.id == id {
                                lemma_count_id_in_at(whole.children@, i as int, id);
                                assert(whole.count_id(id) >= 2);
                                assert(whole.count_id(id) <= 1);
                            }
                        }
                    }
                    assert(whole.subtree(id) == Some(whole.children@[i as int])) by {
                        lemma_subtree_in_skip(whole.children@, i as int, id);
                        lemma_subtree_counts(whole.children@[i as int], id);
                    }
                    assert(after[i as int].kind == Self::patched_kind(
                        whole.children@[i as int].kind,
                        patch,
                    ));
                    if same_part {
                        assert(patched_tree(whole, *self, id, patch)) by {
                            assert(whole.id != id) by {
                                if whole.id == id {
                                    lemma_count_id_in_at(whole.children@, i as int, id);
                                    assert(whole.children@[i as int].count_id(id) >= 1);
                                    assert(whole.count_id(id) >= 2);
                                    assert(whole.count_id(id) <= 1);
                                }
                            }
                            assert forall|j: int|
                                0 <= j < n implies patched_tree(
                                #[trigger] whole.children@[j],
                                after[j],
                                id,
                                patch,
                            ) by {
                                if j == i {
                                    assert(after[j] == newnode);
                                    assert(whole.children@[j] == oldnode);
                                    assert(oldnode.id == id);
                                    assert(patched_in(
                                        oldnode.children@,
                                        newnode.children@,
                                        id,
                                        patch,
                                    )) by {
                                        assert(oldnode.children@.len() == 0);
                                    }
                                } else {
                                    assert(whole.children@[j].count_id(id) == 0) by {
                                        if whole.children@[j].count_id(id) >= 1 {
                                            assert(whole.children@[i as int].count_id(id) >= 1);
                                            if j < i {
                                                lemma_two_counts(
                                                    whole.children@,
                                                    j,
                                                    i as int,
                                                    id,
                                                );
                                            } else {
                                                lemma_two_counts(
                                                    whole.children@,
                                                    i as int,
                                                    j,
                                                    id,
                                                );
                                            }
                                            assert(whole.count_id(id) >= 2);
                                            assert(whole.count_id(id) <= 1);
                                        }
                                    }
                                    if j < i {
                                        crate::tree::lemma_same_tree_sym(
                                            after[j],
                                            whole.children@[j],
                                        );
                                        crate::tree::lemma_same_tree_sym(
                                            whole.children@[j],
                                            after[j],
                                        );
                                        assert(same_tree(whole.children@[j], after[j]));
                                    } else {
                                        lemma_same_tree_refl(after[j]);
                                    }
                                    lemma_same_tree_patched(
                                        whole.children@[j],
                                        after[j],
                                        id,
                                        patch,
                                    );
                                }
                            }
                            lemma_patched_in_pointwise(whole.children@, after, id, patch);
                        }
                    }
                }
                return true;
            }
            proof {
                assert forall|cid: u64| true implies #[trigger] whole.children@[i as int].count_id(
                    cid,
                ) <= 1 by {
                    lemma_count_id_in_at(whole.children@, i as int, cid);
                    assert(whole.count_id(cid) <= 1);
                }
                assert(whole.children@[i as int].distinct_ids());
            }
            let ghost oldch = self.children@[i as int];
            let mut ch = self.children.remove(i);
            let hit = ch.contains(id);
            if hit && !matches!(ch.kind, ContainerKind::Window { .. }) {
                let sub = ch.set_window_fields(id, patch);
                let ghost newch = ch;
                self.children.insert(i, ch);
                proof {
                    assert(self.children@ =~= base.update(i as int, newch));
                    lemma_subtree_counts(oldch, id);
                }
                if sub {
                    proof {
                        let after = self.children@;
                        lemma_detach_base_counts(base, whole.children@, i as int);
                        assert forall|cid: u64| true implies #[trigger] (*self).count_id(cid)
                            == whole.count_id(cid) by {
                            lemma_count_id_in_update(base, i as int, newch, cid);
                            lemma_count_id_in_pointwise(base, whole.children@, cid);
                        }
                        assert((*self).wf()) by {
                            lemma_wf_in_iff(whole.children@);
                            assert forall|j: int| 0 <= j < after.len() implies (
                            #[trigger] after[j]).wf() && Container::kind_allows_child(
                                whole.kind,
                                after[j].kind,
                            ) && after[j].tiling_ratio()
                                == whole.children@[j].tiling_ratio() by {
                                if j != i {
                                    assert(after[j] == base[j]);
                                    if j < i {
                                        crate::tree::lemma_same_tree_wf(
                                            base[j],
                                            whole.children@[j],
                                        );
                                    }
                                } else {
                                    assert(after[j] == newch);
                                }
                            }
                            lemma_wf_in_iff(after);
                            lemma_ratio_sum_pointwise(after, whole.children@);
                            assert(crate::tree::has_tiling_child(after)
                                == crate::tree::has_tiling_child(whole.children@)) by {
                                if crate::tree::has_tiling_child(after) {
                                    let w = choose|w: int|
                                        0 <= w < after.len() && #[trigger] after[w].participates_in_tiling();
                                    assert(whole.children@[w].participates_in_tiling());
                                }
                                if crate::tree::has_tiling_child(whole.children@) {
                                    let w = choose|w: int|
                                        0 <= w < whole.children@.len()
                                            && #[trigger] whole.children@[w].participates_in_tiling();
                                    assert(after[w].participates_in_tiling());
                                }
                            }
                        }
                        assert((*self).subtree(id) == newch.subtree(id)) by {
                            assert forall|j: int| 0 <= j < n && j != i implies (
                            #[trigger] after[j]).count_id(id) == 0 by {
                                lemma_count_same_shape(after[j], base[j], id);
                                if base[j].count_id(id) >= 1 {
                                    assert(oldch.count_id(id) >= 1);
                                    lemma_detach_base_counts(base, whole.children@, i as int);
                                    if j < i {
                                        lemma_two_counts(whole.children@, j, i as int, id);
                                    } else {
                                        lemma_two_counts(whole.children@, i as int, j, id);
                                    }
                                    assert(whole.count_id(id) >= 2);
                                    assert(whole.count_id(id) <= 1);
                                }
                            }
                            lemma_subtree_hit_sub(after, i as int, id, newch);
                            assert(whole.id != id) by {
                                if whole.id == id {
                                    lemma_count_id_in_at(whole.children@, i as int, id);
                                    lemma_detach_base_counts(base, whole.children@, i as int);
                                    assert(whole.children@[i as int].count_id(id) >= 1);
                                    assert(whole.count_id(id) >= 2);
                                    assert(whole.count_id(id) <= 1);
                                }
                            }
                        }
                        assert(whole.subtree(id) == oldch.subtree(id)) by {
                            lemma_subtree_in_skip(whole.children@, i as int, id);
                            lemma_subtree_counts(oldch, id);
                        }
                        if match whole.subtree(id) {
                            Some(w) => w.participates_in_tiling() == (patch.tiling_state
                                is Tiling),
                            None => false,
                        } {
                            assert(patched_tree(oldch, newch, id, patch));
                            assert(patched_tree(whole, *self, id, patch)) by {
                                assert(whole.id != id) by {
                                    if whole.id == id {
                                        lemma_subtree_counts(oldch, id);
                                        lemma_count_id_in_at(whole.children@, i as int, id);
                                        assert(whole.count_id(id) >= 2);
                                        assert(whole.count_id(id) <= 1);
                                    }
                                }
                                assert forall|j: int|
                                    0 <= j < n implies patched_tree(
                                    #[trigger] whole.children@[j],
                                    after[j],
                                    id,
                                    patch,
                                ) by {
                                    if j != i {
                                        assert(whole.children@[j].count_id(id) == 0) by {
                                            if whole.children@[j].count_id(id) >= 1 {
                                                lemma_subtree_counts(oldch, id);
                                                assert(whole.children@[i as int].count_id(id)
                                                    >= 1);
                                                if j < i {
                                                    lemma_two_counts(
                                                        whole.children@,
                                                        j,
                                                        i as int,
                                                        id,
                                                    );
                                                } else {
                                                    lemma_two_counts(
                                                        whole.children@,
                                                        i as int,
                                                        j,
                                                        id,
                                                    );
                                                }
                                                assert(whole.count_id(id) >= 2);
                                                assert(whole.count_id(id) <= 1);
                                            }
                                        }
                                        assert(after[j] == base[j]);
                                        if j < i {
                                            crate::tree::lemma_same_tree_sym(
                                                base[j],
                                                whole.children@[j],
                                            );
                                            assert(same_tree(whole.children@[j], after[j]));
                                        } else {
                                            lemma_same_tree_refl(after[j]);
                                        }
                                        lemma_same_tree_patched(
                                            whole.children@[j],
                                            after[j],
                                            id,
                                            patch,
                                        );
                                    } else {
                                        assert(after[j] == newch);
                                        assert(whole.children@[j] == oldch);
                                    }
                                }
                                lemma_patched_in_pointwise(whole.children@, after, id, patch);
                            }
                        }
                    }
                    return true;
                }
                proof {
                    assert(same_tree(newch, oldch));
                    assert forall|j: int|
                        0 <= j < i + 1 implies same_tree(
                        #[trigger] self.children@[j],
                        whole.children@[j],
                    ) by {
                        if j < i {
                            assert(self.children@[j] == base[j]);
                        } else {
                            assert(self.children@[j] == newch);
                        }
                    }
                    lemma_finish_same_tree(*self, whole, i as int + 1);
                    assert(oldch.subtree(id) is Some) by {
                        lemma_subtree_counts(oldch, id);
                    }
                    lemma_subtree_in_skip(whole.children@, i as int, id);
                }
                return false;
            }
            let ghost newch = ch;
            self.children.insert(i, ch);
            proof {
                assert(self.children@ =~= base.update(i as int, newch));
                assert(newch == oldch);
                assert(self.children@ =~= base);
                if hit {
                    lemma_subtree_counts(oldch, id);
                    lemma_finish_same_tree(*self, whole, i as int);
                    lemma_subtree_in_skip(whole.children@, i as int, id);
                }
            }
            if hit {
                // `id` names this non-window child itself: no patch applies.
                return false;
            }
            proof {
                lemma_subtree_counts(oldch, id);
                lemma_same_tree_refl(self.children@[i as int]);
            }
            i += 1;
        }
        proof {
            assert(whole.children@.skip(n as int) =~= Seq::<Container>::empty());
            lemma_subtree_counts(whole, id);
            lemma_finish_same_tree(*self, whole, n as int);
        }
        false
    }
}

/// Two distinct positions both counting an identifier push the list count
/// to two.
proof fn lemma_two_counts(s: Seq<Container>, j: int, k: int, id: u64)
    requires
        0 <= j < k < s.len(),
        s[j].count_id(id) >= 1,
        s[k].count_id(id) >= 1,
    ensures
        count_id_in(s, id) >= 2,
    decreases s,
{
    if j == 0 {
        lemma_count_id_in_at(s.drop_first(), k - 1, id);
    } else {
        lemma_two_counts(s.drop_first(), j - 1, k - 1, id);
    }
}

/// When only position `i` counts the identifier, the first hit of the
/// list search is that element.
proof fn lemma_subtree_first_hit(s: Seq<Container>, i: int, id: u64)
    requires
        0 <= i < s.len(),
        s[i].id == id,
        forall|j: int| 0 <= j < s.len() && j != i ==> (#[trigger] s[j]).count_id(id) == 0,
    ensures
        subtree_in(s, id) == Some(s[i]),
    decreases i,
{
    if i == 0 {
        assert(s[0].subtree(id) == Some(s[0]));
        assert(subtree_in(s, id) == Some(s[0]));
    } else {
        lemma_subtree_counts(s[0], id);
        assert(forall|j: int|
            0 <= j < s.drop_first().len() && j != i - 1 ==> (#[trigger] s.drop_first()[j]) == s[j
                + 1]);
        lemma_subtree_first_hit(s.drop_first(), i - 1, id);
    }
}

/// When only position `i` counts the identifier, the list search delegates
/// to that element's own search.
proof fn lemma_subtree_hit_sub(s: Seq<Container>, i: int, id: u64, e: Container)
    requires
        0 <= i < s.len(),
        s[i] == e,
        forall|j: int| 0 <= j < s.len() && j != i ==> (#[trigger] s[j]).count_id(id) == 0,
    ensures
        subtree_in(s, id) == e.subtree(id),
    decreases i,
{
    if i == 0 {
        if e.subtree(id) is None {
            lemma_subtree_counts(e, id);
            lemma_subtree_in_counts(s.drop_first(), id);
            assert forall|j: int|
                0 <= j < s.drop_first().len() implies (#[trigger] s.drop_first()[j]).count_id(id)
                == 0 by {
                assert(s.drop_first()[j] == s[j + 1]);
            }
            lemma_all_zero_counts(s.drop_first(), id);
        }
    } else {
        lemma_subtree_counts(s[0], id);
        assert(forall|j: int|
            0 <= j < s.drop_first().len() && j != i - 1 ==> (#[trigger] s.drop_first()[j]) == s[j
                + 1]);
        lemma_subtree_hit_sub(s.drop_first(), i - 1, id, e);
    }
}

/// A list of zero counts has a zero count.
proof fn lemma_all_zero_counts(s: Seq<Container>, id: u64)
    requires
        forall|j: int| 0 <= j < s.len() ==> (#[trigger] s[j]).count_id(id) == 0,
    ensures
        count_id_in(s, id) == 0,
    decreases s,
{
    if s.len() > 0 {
        assert(forall|j: int|
            0 <= j < s.drop_first().len() ==> (#[trigger] s.drop_first()[j]) == s[j + 1]);
        lemma_all_zero_counts(s.drop_first(), id);
    }
}


impl Container {
    /// Sets the size ratio of the container `id` (a strict descendant)
    /// to `ratio` of `RATIO_UNIT`, rescaling its siblings to fill the
    /// rest in proportion. On a miss the tree is structurally unchanged.
    #[verifier::loop_isolation(false)]
    pub fn resize_ratio(&mut self, id: u64, ratio: u32) -> (r: bool)
        requires
            old(self).wf(),
            old(self).distinct_ids(),
            id != old(self).id,
            ratio <= RATIO_UNIT,
        ensures
            final(self).id == old(self).id,
            final(self).kind == old(self).kind,
            final(self).ratio == old(self).ratio,
            r == old(self).contains_id(id),
            r ==> final(self).wf() && (forall|cid: u64|
                #[trigger] final(self).count_id(cid) == old(self).count_id(cid)),
            r ==> (match old(self).parent_of(id) {
                Some(p) => (match final(self).subtree(p.id) {
                    Some(p2) => p2.id == p.id && p2.children@.len() == p.children@.len() && (
                    forall|j: int|
                        0 <= j < p2.children@.len() ==> (#[trigger] p2.children@[j]).id
                            == p.children@[j].id && p2.children@[j].participates_in_tiling()
                            == p.children@[j].participates_in_tiling() && (
                        p.children@[j].participates_in_tiling() ==> p2.children@[j].ratio as int
                            == crate::ratio::rescaled_ratio(p.children@, Some(id), ratio, j)) && (
                        !p.children@[j].participates_in_tiling() ==> p2.children@[j].ratio
                            == p.children@[j].ratio)),
                    None => false,
                }),
                None => false,
            }),
            !r ==> same_tree(*final(self), *old(self)),
        decreases *old(self),
    {
        let ghost whole = *old(self);
        let n = self.children.len();
        let mut i: usize = 0;
        proof {
            assert(whole.children@.skip(0) =~= whole.children@);
        }
        while i < n
            invariant
                0 <= i <= n,
                self.id == whole.id,
                self.kind == whole.kind,
                self.ratio == whole.ratio,
                n == self.children@.len(),
                whole.children@.len() == n,
                forall|j: int| i <= j < n ==> #[trigger] self.children@[j] == whole.children@[j],
                forall|j: int|
                    0 <= j < i ==> same_tree(#[trigger] self.children@[j], whole.children@[j]),
                count_id_in(whole.children@, id) == count_id_in(
                    whole.children@.skip(i as int),
                    id,
                ),
            decreases n - i,
        {
            proof {
                crate::tree::lemma_count_id_in_skip(whole.children@, i as int, id);
                lemma_wf_in_iff(whole.children@);
                assert(whole.children@[i as int].wf());
                assert forall|cid: u64| true implies #[trigger] whole.children@[i as int].count_id(
                    cid,
                ) <= 1 by {
                    lemma_count_id_in_at(whole.children@, i as int, cid);
                    assert(whole.count_id(cid) <= 1);
                }
                assert(whole.children@[i as int].distinct_ids());
            }
            let ghost base = self.children@;
            if self.children[i].id == id {
                proof {
                    lemma_detach_base_counts(base, whole.children@, i as int);
                    assert forall|j: int| 0 <= j < n implies (#[trigger] base[j]).ratio
                        <= RATIO_UNIT && base[j].wf() by {
                        if j < i {
                            crate::tree::lemma_same_tree_wf(base[j], whole.children@[j]);
                        }
                    }
                    assert forall|j: int, k: int|
                        0 <= j < k < n && Some(id) == Some(#[trigger] base[j].id) implies Some(id)
                        != Some(#[trigger] base[k].id) by {
                        if base[j].id == id && base[k].id == id {
                            assert(base[j].count_id(id) >= 1 && base[k].count_id(id) >= 1);
                            lemma_two_counts(base, j, k, id);
                            lemma_count_id_in_pointwise(base, whole.children@, id);
                            assert(whole.count_id(id) >= 2);
                            assert(whole.count_id(id) <= 1);
                        }
                    }
                }
                rescale_ratios(&mut self.children, Some(id), ratio);
                proof {
                    let after = self.children@;
                    assert forall|cid: u64| true implies #[trigger] (*self).count_id(cid)
                        == whole.count_id(cid) by {
                        assert forall|j: int| 0 <= j < after.len() implies (
                        #[trigger] after[j]).count_id(cid) == base[j].count_id(cid) by {
                            lemma_count_same_shape(after[j], base[j], cid);
                        }
                        lemma_count_id_in_pointwise(after, base, cid);
                        lemma_count_id_in_pointwise(base, whole.children@, cid);
                    }
                    assert((*self).wf()) by {
                        assert forall|j: int| 0 <= j < after.len() implies (
                        #[trigger] after[j]).wf() && Container::kind_allows_child(
                            whole.kind,
                            after[j].kind,
                        ) by {
                            assert(base[j].wf());
                            lemma_wf_same_shape(base[j], after[j]);
                            if j < i {
                                crate::tree::lemma_same_tree_wf(base[j], whole.children@[j]);
                            }
                        }
                        lemma_wf_in_iff(after);
                    }
                    lemma_count_id_in_at(whole.children@, i as int, id);
                    assert(whole.parent_of(id) == Some(whole)) by {
                        assert(whole.children@[i as int].id == id);
                    }
                    assert((*self).subtree(whole.id) == Some(*self));
                    assert forall|j: int|
                        0 <= j < n implies (#[trigger] after[j]).id == whole.children@[j].id
                            && after[j].participates_in_tiling()
                            == whole.children@[j].participates_in_tiling() && (
                    whole.children@[j].participates_in_tiling() ==> after[j].ratio as int
                        == crate::ratio::rescaled_ratio(whole.children@, Some(id), ratio, j)) && (
                    !whole.children@[j].participates_in_tiling() ==> after[j].ratio
                        == whole.children@[j].ratio) by {
                        if j < i {
                            assert(same_tree(base[j], whole.children@[j]));
                        }
                        if whole.children@[j].participates_in_tiling() {
                            crate::ratio::lemma_rescaled_ratio_congruence(
                                base,
                                whole.children@,
                                Some(id),
                                ratio,
                                j,
                            );
                        }
                    }
                }
                return true;
            }
            let ghost oldch = self.children@[i as int];
            let mut ch = self.children.remove(i);
            let found = if ch.id != id && ch.contains(id) {
                ch.resize_ratio(id, ratio)
            } else {
                false
            };
            let ghost newch = ch;
            self.children.insert(i, ch);
            proof {
                assert(self.children@ =~= base.update(i as int, newch));
            }
            if found {
                proof {
                    let after = self.children@;
                    lemma_detach_base_counts(base, whole.children@, i as int);
                    assert forall|cid: u64| true implies #[trigger] (*self).count_id(cid)
                        == whole.count_id(cid) by {
                        lemma_count_id_in_update(base, i as int, newch, cid);
                        lemma_count_id_in_pointwise(base, whole.children@, cid);
                    }
                    assert((*self).wf()) by {
                        assert forall|j: int| 0 <= j < after.len() implies (
                        #[trigger] after[j]).wf() && Container::kind_allows_child(
                            whole.kind,
                            after[j].kind,
                        ) && after[j].tiling_ratio() == whole.children@[j].tiling_ratio() by {
                            if j != i {
                                assert(after[j] == base[j]);
                                if j < i {
                                    crate::tree::lemma_same_tree_wf(base[j], whole.children@[j]);
                                }
                            } else {
                                assert(after[j] == newch);
                            }
                        }
                        lemma_wf_in_iff(after);
                        lemma_ratio_sum_pointwise(after, whole.children@);
                        assert(crate::tree::has_tiling_child(after) == crate::tree::has_tiling_child(
                            whole.children@,
                        )) by {
                            if crate::tree::has_tiling_child(after) {
                                let w = choose|w: int|
                                    0 <= w < after.len() && #[trigger] after[w].participates_in_tiling();
                                assert(whole.children@[w].participates_in_tiling());
                            }
                            if crate::tree::has_tiling_child(whole.children@) {
                                let w = choose|w: int|
                                    0 <= w < whole.children@.len()
                                        && #[trigger] whole.children@[w].participates_in_tiling();
                                assert(after[w].participates_in_tiling());
                            }
                        }
                    }
                    lemma_count_id_in_at(whole.children@, i as int, id);
                    // The parent group of `id` lies inside the recursed
                    // child; its identifier leads there in both trees.
                    assert(oldch.contains_id(id) && oldch.id != id);
                    lemma_contains_has_parent(oldch, id);
                    let p = oldch.parent_of(id).unwrap();
                    lemma_parent_of_node(oldch, id);
                    assert forall|j: int|
                        0 <= j < n && j != i implies (#[trigger] whole.children@[j]).count_id(id)
                        == 0 && whole.children@[j].count_id(p.id) == 0 by {
                        if whole.children@[j].count_id(id) >= 1 {
                            if j < i {
                                lemma_two_counts(whole.children@, j, i as int, id);
                            } else {
                                lemma_two_counts(whole.children@, i as int, j, id);
                            }
                            assert(whole.count_id(id) >= 2);
                            assert(whole.count_id(id) <= 1);
                        }
                        if whole.children@[j].count_id(p.id) >= 1 {
                            if j < i {
                                lemma_two_counts(whole.children@, j, i as int, p.id);
                            } else {
                                lemma_two_counts(whole.children@, i as int, j, p.id);
                            }
                            assert(whole.count_id(p.id) >= 2);
                            assert(whole.count_id(p.id) <= 1);
                        }
                    }
                    assert(whole.parent_of(id) == Some(p)) by {
                        assert forall|j: int|
                            0 <= j < n implies (#[trigger] whole.children@[j]).id != id by {
                            if j != i {
                                assert(whole.children@[j].count_id(whole.children@[j].id) >= 1);
                            }
                        }
                        lemma_parent_of_hit_sub(whole.children@, i as int, id, oldch);
                    }
                    assert((*self).subtree(p.id) == newch.subtree(p.id)) by {
                        assert forall|j: int|
                            0 <= j < n && j != i implies (#[trigger] after[j]).count_id(p.id)
                            == 0 by {
                            lemma_count_same_shape(after[j], base[j], p.id);
                            if j < i {
                                crate::tree::lemma_same_tree_count(
                                    base[j],
                                    whole.children@[j],
                                    p.id,
                                );
                            }
                        }
                        lemma_subtree_hit_sub(after, i as int, p.id, newch);
                        assert(whole.id != p.id) by {
                            if whole.id == p.id {
                                lemma_count_id_in_at(whole.children@, i as int, p.id);
                                assert(whole.count_id(p.id) >= 2);
                                assert(whole.count_id(p.id) <= 1);
                            }
                        }
                    }
                }
                return true;
            }
            proof {
                assert(newch == oldch || same_tree(newch, oldch));
                if newch == oldch {
                    lemma_same_tree_refl(newch);
                }
                assert forall|j: int|
                    0 <= j < i + 1 implies same_tree(
                    #[trigger] self.children@[j],
                    whole.children@[j],
                ) by {
                    if j < i {
                        assert(self.children@[j] == base[j]);
                    } else {
                        assert(self.children@[j] == newch);
                    }
                }
                assert(oldch.count_id(id) == 0) by {
                    if oldch.id == id {
                        assert(oldch.count_id(id) >= 1);
                        if oldch.contains_id(id) {
                        }
                    }
                }
            }
            i += 1;
        }
        proof {
            assert(whole.children@.skip(n as int) =~= Seq::<Container>::empty());
            lemma_finish_same_tree(*self, whole, n as int);
        }
        false
    }
}


impl Container {
    /// Looks up the node carrying `id`, if any.
    #[verifier::loop_isolation(false)]
    pub fn find_node(&self, id: u64) -> (r: Option<&Container>)
        ensures
            r matches Some(n) ==> self.subtree(id) == Some(*n),
            r is None ==> self.subtree(id) is None,
        decreases *self,
    {
        if self.id == id {
            return Some(self);
        }
        let n = self.children.len();
        let mut i: usize = 0;
        proof {
            assert(self.children@.skip(0) =~= self.children@);
        }
        while i < n
            invariant
                0 <= i <= n,
                n == self.children@.len(),
                self.id != id,
                subtree_in(self.children@, id) == subtree_in(self.children@.skip(i as int), id),
            decreases n - i,
        {
            proof {
                lemma_subtree_in_skip(self.children@, i as int, id);
            }
            let found = self.children[i].find_node(id);
            if found.is_some() {
                return found;
            }
            i += 1;
        }
        proof {
            assert(self.children@.skip(n as int) =~= Seq::<Container>::empty());
        }
        None
    }
}


/// Every node found in a well-formed tree is itself well-formed.
pub proof fn lemma_subtree_wf(c: Container, id: u64)
    requires
        c.wf(),
        c.subtree(id) is Some,
    ensures
        c.subtree(id).unwrap().wf(),
    decreases c,
{
    if c.id != id {
        lemma_wf_in_iff(c.children@);
        lemma_subtree_in_wf(c.children@, id);
    }
}

/// Helper for `lemma_subtree_wf` over child lists.
proof fn lemma_subtree_in_wf(s: Seq<Container>, id: u64)
    requires
        forall|j: int| 0 <= j < s.len() ==> (#[trigger] s[j]).wf(),
        subtree_in(s, id) is Some,
    ensures
        subtree_in(s, id).unwrap().wf(),
    decreases s,
{
    if s.len() > 0 {
        if s[0].subtree(id) is Some {
            lemma_subtree_wf(s[0], id);
        } else {
            assert(forall|j: int|
                0 <= j < s.drop_first().len() ==> (#[trigger] s.drop_first()[j]) == s[j + 1]);
            lemma_subtree_in_wf(s.drop_first(), id);
        }
    }
}

/// The ratio discipline, as a law of the whole tree: in a well-formed
/// tree, the tiling participants under every workspace or split
/// container sum to exactly `RATIO_UNIT`. Every mutating operation
/// ensures well-formedness, so this holds after each of them.
pub proof fn lemma_ratio_discipline(c: Container, id: u64)
    requires
        c.wf(),
        c.subtree(id) matches Some(n) && n.is_tiling_group() && crate::tree::has_tiling_child(
            n.children@,
        ),
    ensures
        ratio_sum(c.subtree(id).unwrap().children@) == RATIO_UNIT as int,
{
    lemma_subtree_wf(c, id);
}


impl Container {
    /// The kind of a workspace or split container with its tiling
    /// direction replaced.
    pub open spec fn redirected_kind(
        k: ContainerKind,
        direction: crate::geometry::TilingDirection,
    ) -> ContainerKind {
        match k {
            ContainerKind::Workspace { display_state, .. } => ContainerKind::Workspace {
                direction,
                display_state,
            },
            ContainerKind::Split { .. } => ContainerKind::Split { direction },
            _ => k,
        }
    }

    /// Sets the tiling direction of the workspace or split container
    /// `id`. Ratios and participation are untouched, so no group needs
    /// renormalizing. On a miss, or when `id` is no tiling group, the
    /// tree is structurally unchanged.
    #[verifier::loop_isolation(false)]
    pub fn set_direction(&mut self, id: u64, direction: crate::geometry::TilingDirection) -> (r:
        bool)
        requires
            old(self).wf(),
            old(self).distinct_ids(),
            id != old(self).id,
        ensures
            final(self).id == old(self).id,
            final(self).kind == old(self).kind,
            final(self).ratio == old(self).ratio,
            r == (match old(self).subtree(id) {
                Some(n) => n.is_tiling_group(),
                None => false,
            }),
            r ==> final(self).wf() && (forall|cid: u64|
                #[trigger] final(self).count_id(cid) == old(self).count_id(cid)) && (match final(self).subtree(id) {
                Some(n) => n.id == id && n.kind == Self::redirected_kind(
                    old(self).subtree(id).unwrap().kind,
                    direction,
                ) && n.is_tiling_group(),
                None => false,
            }),
            !r ==> same_tree(*final(self), *old(self)),
        decreases *old(self),
    {
        let ghost whole = *old(self);
        let n = self.children.len();
        let mut i: usize = 0;
        proof {
            assert(whole.children@.skip(0) =~= whole.children@);
        }
        while i < n
            invariant
                0 <= i <= n,
                self.id == whole.id,
                self.kind == whole.kind,
                self.ratio == whole.ratio,
                n == self.children@.len(),
                whole.children@.len() == n,
                forall|j: int| i <= j < n ==> #[trigger] self.children@[j] == whole.children@[j],
                forall|j: int|
                    0 <= j < i ==> same_tree(#[trigger] self.children@[j], whole.children@[j]),
                forall|j: int| 0 <= j < i ==> (#[trigger] whole.children@[j]).count_id(id) == 0,
            decreases n - i,
        {
            proof {
                lemma_wf_in_iff(whole.children@);
                assert(whole.children@[i as int].wf());
                assert forall|cid: u64| true implies #[trigger] whole.children@[i as int].count_id(
                    cid,
                ) <= 1 by {
                    lemma_count_id_in_at(whole.children@, i as int, cid);
                    assert(whole.count_id(cid) <= 1);
                }
                assert(whole.children@[i as int].distinct_ids());
            }
            let ghost base = self.children@;
            let ghost oldch = self.children@[i as int];
            if self.children[i].id == id {
                let group = matches!(
                    self.children[i].kind,
                    ContainerKind::Workspace { .. } | ContainerKind::Split { .. }
                );
                if !group {
                    proof {
                        lemma_finish_same_tree(*self, whole, i as int);
                        assert forall|j: int|
                            0 <= j < n && j != i implies (
                        #[trigger] whole.children@[j]).count_id(id) == 0 by {
                            if whole.children@[j].count_id(id) >= 1 {
                                assert(whole.children@[i as int].count_id(id) >= 1);
                                if j < i {
                                    lemma_two_counts(whole.children@, j, i as int, id);
                                } else {
                                    lemma_two_counts(whole.children@, i as int, j, id);
                                }
                                assert(whole.count_id(id) >= 2);
                                assert(whole.count_id(id) <= 1);
                            }
                        }
                        lemma_subtree_first_hit(whole.children@, i as int, id);
                        assert(whole.id != id);
                        assert(whole.subtree(id) == Some(whole.children@[i as int]));
                    }
                    return false;
                }
                let mut c = self.children.remove(i);
                c.kind = match c.kind {
                    ContainerKind::Workspace { display_state, .. } => ContainerKind::Workspace {
                        direction,
                        display_state,
                    },
                    ContainerKind::Split { .. } => ContainerKind::Split { direction },
                    other => other,
                };
                let ghost newnode = c;
                self.children.insert(i, c);
                proof {
                    let after = self.children@;
                    assert(after =~= base.update(i as int, newnode));
                    lemma_detach_base_counts(base, whole.children@, i as int);
                    assert forall|cid: u64| true implies #[trigger] (*self).count_id(cid)
                        == whole.count_id(cid) by {
                        lemma_count_same_shape(newnode, oldch, cid);
                        lemma_count_id_in_update(base, i as int, newnode, cid);
                        lemma_count_id_in_pointwise(base, whole.children@, cid);
                    }
                    assert((*self).wf()) by {
                        assert forall|j: int| 0 <= j < after.len() implies (
                        #[trigger] after[j]).wf() && Container::kind_allows_child(
                            whole.kind,
                            after[j].kind,
                        ) && after[j].tiling_ratio() == whole.children@[j].tiling_ratio() by {
                            if j != i {
                                assert(after[j] == base[j]);
                                if j < i {
                                    crate::tree::lemma_same_tree_wf(base[j], whole.children@[j]);
                                }
                            } else {
                                assert(after[j] == newnode);
                                assert(oldch.wf());
                                assert(newnode.node_ok()) by {
                                    assert(newnode.children@ == oldch.children@);
                                    assert(newnode.ratios_ok() == oldch.ratios_ok());
                                }
                                assert(crate::tree::wf_in(newnode.children@));
                            }
                        }
                        lemma_wf_in_iff(after);
                        lemma_ratio_sum_pointwise(after, whole.children@);
                        assert(crate::tree::has_tiling_child(after) == crate::tree::has_tiling_child(
                            whole.children@,
                        )) by {
                            if crate::tree::has_tiling_child(after) {
                                let w = choose|w: int|
                                    0 <= w < after.len() && #[trigger] after[w].participates_in_tiling();
                                assert(whole.children@[w].participates_in_tiling());
                            }
                            if crate::tree::has_tiling_child(whole.children@) {
                                let w = choose|w: int|
                                    0 <= w < whole.children@.len()
                                        && #[trigger] whole.children@[w].participates_in_tiling();
                                assert(after[w].participates_in_tiling());
                            }
                        }
                    }
                    assert((*self).subtree(id) == Some(after[i as int])) by {
                        assert forall|j: int| 0 <= j < n && j != i implies (
                        #[trigger] after[j]).count_id(id) == 0 by {
                            lemma_count_same_shape(after[j], base[j], id);
                            if base[j].count_id(id) >= 1 {
                                assert(base[i as int].count_id(id) >= 1) by {
                                    lemma_count_same_shape(newnode, oldch, id);
                                    assert(oldch.count_id(id) >= 1);
                                    lemma_count_same_shape(base[i as int], oldch, id);
                                }
                                if j < i {
                                    lemma_two_counts(base, j, i as int, id);
                                } else {
                                    lemma_two_counts(base, i as int, j, id);
                                }
                                lemma_count_id_in_pointwise(base, whole.children@, id);
                                assert(whole.count_id(id) >= 2);
                                assert(whole.count_id(id) <= 1);
                            }
                        }
                        lemma_subtree_first_hit(after, i as int, id);
                        assert(whole.id != id);
                    }
                    assert(whole.subtree(id) == Some(whole.children@[i as int])) by {
                        assert forall|j: int| 0 <= j < n && j != i implies (
                        #[trigger] whole.children@[j]).count_id(id) == 0 by {
                            if whole.children@[j].count_id(id) >= 1 {
                                assert(whole.children@[i as int].count_id(id) >= 1) by {
                                    assert(oldch == whole.children@[i as int]);
                                }
                                if j < i {
                                    lemma_two_counts(whole.children@, j, i as int, id);
                                } else {
                                    lemma_two_counts(whole.children@, i as int, j, id);
                                }
                                assert(whole.count_id(id) >= 2);
                                assert(whole.count_id(id) <= 1);
                            }
                        }
                        lemma_subtree_first_hit(whole.children@, i as int, id);
                    }
                }
                return true;
            }
            let mut ch = self.children.remove(i);
            let has = ch.id != id && ch.contains(id);
            let found = if has {
                ch.set_direction(id, direction)
            } else {
                false
            };
            let ghost newch = ch;
            self.children.insert(i, ch);
            proof {
                assert(self.children@ =~= base.update(i as int, newch));
            }
            if found {
                proof {
                    let after = self.children@;
                    lemma_detach_base_counts(base, whole.children@, i as int);
                    assert forall|cid: u64| true implies #[trigger] (*self).count_id(cid)
                        == whole.count_id(cid) by {
                        lemma_count_id_in_update(base, i as int, newch, cid);
                        lemma_count_id_in_pointwise(base, whole.children@, cid);
                    }
                    assert((*self).wf()) by {
                        assert forall|j: int| 0 <= j < after.len() implies (
                        #[trigger] after[j]).wf() && Container::kind_allows_child(
                            whole.kind,
                            after[j].kind,
                        ) && after[j].tiling_ratio() == whole.children@[j].tiling_ratio() by {
                            if j != i {
                                assert(after[j] == base[j]);
                                if j < i {
                                    crate::tree::lemma_same_tree_wf(base[j], whole.children@[j]);
                                }
                            } else {
                                assert(after[j] == newch);
                            }
                        }
                        lemma_wf_in_iff(after);
                        lemma_ratio_sum_pointwise(after, whole.children@);
                        assert(crate::tree::has_tiling_child(after) == crate::tree::has_tiling_child(
                            whole.children@,
                        )) by {
                            if crate::tree::has_tiling_child(after) {
                                let w = choose|w: int|
                                    0 <= w < after.len() && #[trigger] after[w].participates_in_tiling();
                                assert(whole.children@[w].participates_in_tiling());
                            }
                            if crate::tree::has_tiling_child(whole.children@) {
                                let w = choose|w: int|
                                    0 <= w < whole.children@.len()
                                        && #[trigger] whole.children@[w].participates_in_tiling();
                                assert(after[w].participates_in_tiling());
                            }
                        }
                    }
                    assert((*self).subtree(id) == newch.subtree(id)) by {
                        assert forall|j: int| 0 <= j < n && j != i implies (
                        #[trigger] after[j]).count_id(id) == 0 by {
                            lemma_count_same_shape(after[j], base[j], id);
                            if base[j].count_id(id) >= 1 {
                                assert(oldch.count_id(id) >= 1);
                                if j < i {
                                    lemma_two_counts(whole.children@, j, i as int, id);
                                } else {
                                    lemma_two_counts(whole.children@, i as int, j, id);
                                }
                                assert(whole.count_id(id) >= 2);
                                assert(whole.count_id(id) <= 1);
                            }
                        }
                        lemma_subtree_hit_sub(after, i as int, id, newch);
                        assert(whole.id != id) by {
                            if whole.id == id {
                                lemma_count_id_in_at(whole.children@, i as int, id);
                                lemma_detach_base_counts(base, whole.children@, i as int);
                                assert(whole.children@[i as int].count_id(id) >= 1);
                                assert(whole.count_id(id) >= 2);
                                assert(whole.count_id(id) <= 1);
                            }
                        }
                    }
                    assert(whole.subtree(id) == oldch.subtree(id)) by {
                        assert forall|j: int| 0 <= j < n && j != i implies (
                        #[trigger] whole.children@[j]).count_id(id) == 0 by {
                            if whole.children@[j].count_id(id) >= 1 {
                                assert(oldch.count_id(id) >= 1);
                                if j < i {
                                    lemma_two_counts(whole.children@, j, i as int, id);
                                } else {
                                    lemma_two_counts(whole.children@, i as int, j, id);
                                }
                                assert(whole.count_id(id) >= 2);
                                assert(whole.count_id(id) <= 1);
                            }
                        }
                        lemma_subtree_hit_sub(whole.children@, i as int, id, oldch);
                    }
                }
                return true;
            }
            proof {
                assert(newch == oldch || same_tree(newch, oldch));
                if newch == oldch {
                    lemma_same_tree_refl(newch);
                }
                assert forall|j: int|
                    0 <= j < i + 1 implies same_tree(
                    #[trigger] self.children@[j],
                    whole.children@[j],
                ) by {
                    if j < i {
                        assert(self.children@[j] == base[j]);
                    } else {
                        assert(self.children@[j] == newch);
                    }
                }
            }
            if has {
                // The target lies below this child and is no tiling
                // group; with unique identifiers it is nowhere else.
                proof {
                    lemma_finish_same_tree(*self, whole, i as int + 1);
                    assert(oldch.count_id(id) >= 1);
                    assert forall|j: int|
                        0 <= j < n && j != i implies (#[trigger] whole.children@[j]).count_id(id)
                        == 0 by {
                        if whole.children@[j].count_id(id) >= 1 {
                            if j < i {
                                lemma_two_counts(whole.children@, j, i as int, id);
                            } else {
                                lemma_two_counts(whole.children@, i as int, j, id);
                            }
                            assert(whole.count_id(id) >= 2);
                            assert(whole.count_id(id) <= 1);
                        }
                    }
                    lemma_subtree_hit_sub(whole.children@, i as int, id, oldch);
                    assert(whole.id != id);
                    assert(whole.subtree(id) == oldch.subtree(id));
                }
                return false;
            }
            proof {
                assert(oldch.count_id(id) == 0);
            }
            i += 1;
        }
        proof {
            assert(whole.children@.skip(n as int) =~= Seq::<Container>::empty());
            lemma_finish_same_tree(*self, whole, n as int);
            assert forall|j: int|
                0 <= j < n implies (#[trigger] whole.children@[j]).count_id(id) == 0 by {}
            lemma_all_zero_counts(whole.children@, id);
            assert(whole.count_id(id) == 0);
            crate::ops::lemma_subtree_counts(whole, id);
        }
        false
    }
}


/// A found window lies in the tree.
proof fn lemma_find_window_contains(c: Container, h: u64)
    requires
        c.find_window(h) is Some,
    ensures
        c.contains_id(c.find_window(h).unwrap().id),
    decreases c,
{
    match c.kind {
        ContainerKind::Window { .. } => {
            assert(c.count_id(c.id) >= 1);
        },
        _ => {
            lemma_find_window_in_witness(c.children@, h);
            let j = choose|j: int|
                0 <= j < c.children@.len() && (#[trigger] c.children@[j]).find_window(h)
                    == crate::tree::find_window_in(c.children@, h) && c.children@[j].find_window(
                    h,
                ) is Some && c.children@[j].contains_id(
                    crate::tree::find_window_in(c.children@, h).unwrap().id,
                );
            lemma_count_id_in_at(c.children@, j, c.find_window(h).unwrap().id);
        },
    }
}

/// A list's window search answers through one of its elements.
proof fn lemma_find_window_in_witness(s: Seq<Container>, h: u64)
    requires
        crate::tree::find_window_in(s, h) is Some,
    ensures
        exists|j: int|
            0 <= j < s.len() && (#[trigger] s[j]).find_window(h) == crate::tree::find_window_in(
                s,
                h,
            ) && s[j].find_window(h) is Some && s[j].contains_id(
                crate::tree::find_window_in(s, h).unwrap().id,
            ),
    decreases s,
{
    if s[0].find_window(h) is Some {
        lemma_find_window_contains(s[0], h);
    } else {
        lemma_find_window_in_witness(s.drop_first(), h);
        let j = choose|j: int|
            0 <= j < s.drop_first().len() && (#[trigger] s.drop_first()[j]).find_window(h)
                == crate::tree::find_window_in(s.drop_first(), h) && s.drop_first()[j].find_window(
                h,
            ) is Some && s.drop_first()[j].contains_id(
                crate::tree::find_window_in(s.drop_first(), h).unwrap().id,
            );
        assert(s[j + 1] == s.drop_first()[j]);
    }
}

/// With unique identifiers, the window a handle lookup returns is the
/// very node its identifier resolves to.
pub proof fn lemma_find_window_located(c: Container, h: u64)
    requires
        c.distinct_ids(),
        c.find_window(h) is Some,
    ensures
        c.contains_id(c.find_window(h).unwrap().id),
        c.subtree(c.find_window(h).unwrap().id) matches Some(n) && n.window_info()
            == c.find_window(h),
    decreases c,
{
    let info = c.find_window(h).unwrap();
    match c.kind {
        ContainerKind::Window { .. } => {
        },
        _ => {
            lemma_find_window_in_witness(c.children@, h);
            let j = choose|j: int|
                0 <= j < c.children@.len() && (#[trigger] c.children@[j]).find_window(h)
                    == crate::tree::find_window_in(c.children@, h) && c.children@[j].find_window(
                    h,
                ) is Some && c.children@[j].contains_id(info.id);
            assert forall|cid: u64| true implies #[trigger] c.children@[j].count_id(cid) <= 1 by {
                lemma_count_id_in_at(c.children@, j, cid);
                assert(c.count_id(cid) <= 1);
            }
            lemma_find_window_located(c.children@[j], h);
            lemma_count_id_in_at(c.children@, j, info.id);
            assert(c.id != info.id) by {
                if c.id == info.id {
                    assert(c.count_id(info.id) >= 2);
                    assert(c.count_id(info.id) <= 1);
                }
            }
            assert forall|k: int|
                0 <= k < c.children@.len() && k != j implies (#[trigger] c.children@[k]).count_id(
                info.id,
            ) == 0 by {
                if c.children@[k].count_id(info.id) >= 1 {
                    if k < j {
                        lemma_two_counts(c.children@, k, j, info.id);
                    } else {
                        lemma_two_counts(c.children@, j, k, info.id);
                    }
                    assert(c.count_id(info.id) >= 2);
                    assert(c.count_id(info.id) <= 1);
                }
            }
            lemma_subtree_hit_sub(c.children@, j, info.id, c.children@[j]);
        },
    }
}


impl Container {
    /// The first node (in tree order) with a direct child `id`: the
    /// parent of `id` when identifiers are unique.
    pub open spec fn parent_of(self, id: u64) -> Option<Container>
        decreases self,
    {
        if exists|j: int|
            0 <= j < self.children@.len() && (#[trigger] self.children@[j]).id == id {
            Some(self)
        } else {
            parent_of_in(self.children@, id)
        }
    }
}

/// First parent over a sequence of subtrees.
pub open spec fn parent_of_in(s: Seq<Container>, id: u64) -> Option<Container>
    decreases s,
{
    if s.len() == 0 {
        None
    } else {
        match s[0].parent_of(id) {
            Some(p) => Some(p),
            None => parent_of_in(s.drop_first(), id),
        }
    }
}

/// A subtree without `id` has no parent of `id`.
proof fn lemma_parent_of_counts(c: Container, id: u64)
    requires
        c.count_id(id) == 0,
    ensures
        c.parent_of(id) is None,
    decreases c,
{
    assert forall|j: int|
        0 <= j < c.children@.len() implies (#[trigger] c.children@[j]).id != id by {
        lemma_count_id_in_at(c.children@, j, id);
        assert(c.children@[j].count_id(c.children@[j].id) >= 1);
    }
    lemma_parent_of_in_counts(c.children@, id);
}

/// Sequence form of `lemma_parent_of_counts`.
proof fn lemma_parent_of_in_counts(s: Seq<Container>, id: u64)
    requires
        count_id_in(s, id) == 0,
    ensures
        parent_of_in(s, id) is None,
    decreases s,
{
    if s.len() > 0 {
        lemma_parent_of_counts(s[0], id);
        lemma_parent_of_in_counts(s.drop_first(), id);
    }
}

/// A found parent and its child both lie in the tree.
proof fn lemma_parent_of_node(c: Container, id: u64)
    requires
        c.parent_of(id) is Some,
    ensures
        c.count_id(c.parent_of(id).unwrap().id) >= 1,
        c.count_id(id) >= 1,
    decreases c,
{
    if exists|j: int| 0 <= j < c.children@.len() && (#[trigger] c.children@[j]).id == id {
        let j = choose|j: int|
            0 <= j < c.children@.len() && (#[trigger] c.children@[j]).id == id;
        assert(c.children@[j].count_id(id) >= 1);
        lemma_count_id_in_at(c.children@, j, id);
        assert(c.count_id(c.id) >= 1);
    } else {
        lemma_parent_of_in_node(c.children@, id);
        let p = c.parent_of(id).unwrap();
        assert(count_id_in(c.children@, p.id) >= 1 && count_id_in(c.children@, id) >= 1);
    }
}

/// Sequence form of `lemma_parent_of_node`.
proof fn lemma_parent_of_in_node(s: Seq<Container>, id: u64)
    requires
        parent_of_in(s, id) is Some,
    ensures
        count_id_in(s, id) >= 1,
        count_id_in(s, parent_of_in(s, id).unwrap().id) >= 1,
    decreases s,
{
    if s[0].parent_of(id) is Some {
        lemma_parent_of_node(s[0], id);
    } else {
        lemma_parent_of_in_node(s.drop_first(), id);
    }
}

/// When only position `i` holds the identifier, the parent search
/// delegates to that element.
proof fn lemma_parent_of_hit_sub(s: Seq<Container>, i: int, id: u64, e: Container)
    requires
        0 <= i < s.len(),
        s[i] == e,
        forall|j: int| 0 <= j < s.len() && j != i ==> (#[trigger] s[j]).count_id(id) == 0,
    ensures
        parent_of_in(s, id) == e.parent_of(id),
    decreases i,
{
    if i == 0 {
        if e.parent_of(id) is None {
            assert forall|j: int|
                0 <= j < s.drop_first().len() implies (#[trigger] s.drop_first()[j]).count_id(id)
                == 0 by {
                assert(s.drop_first()[j] == s[j + 1]);
            }
            lemma_all_zero_counts(s.drop_first(), id);
            lemma_parent_of_in_counts(s.drop_first(), id);
        }
    } else {
        lemma_parent_of_counts(s[0], id);
        assert(forall|j: int|
            0 <= j < s.drop_first().len() && j != i - 1 ==> (#[trigger] s.drop_first()[j]) == s[j
                + 1]);
        lemma_parent_of_hit_sub(s.drop_first(), i - 1, id, e);
    }
}

/// Every contained strict descendant has a parent in the tree.
pub proof fn lemma_contains_has_parent(c: Container, id: u64)
    requires
        c.contains_id(id),
        c.id != id,
    ensures
        c.parent_of(id) is Some,
    decreases c,
{
    if exists|j: int| 0 <= j < c.children@.len() && (#[trigger] c.children@[j]).id == id {
    } else {
        lemma_contains_has_parent_in(c.children@, id);
    }
}

/// Sequence form of `lemma_contains_has_parent`.
proof fn lemma_contains_has_parent_in(s: Seq<Container>, id: u64)
    requires
        count_id_in(s, id) >= 1,
        forall|j: int| 0 <= j < s.len() ==> (#[trigger] s[j]).id != id,
    ensures
        parent_of_in(s, id) is Some,
    decreases s,
{
    if s[0].count_id(id) >= 1 {
        lemma_contains_has_parent(s[0], id);
    } else {
        if s[0].parent_of(id) is None {
            assert(forall|j: int|
                0 <= j < s.drop_first().len() ==> (#[trigger] s.drop_first()[j]) == s[j + 1]);
            lemma_contains_has_parent_in(s.drop_first(), id);
        }
    }
}


impl Container {
    /// The kind of a workspace with its display state replaced.
    pub open spec fn redisplayed_kind(k: ContainerKind, ds: DisplayState) -> ContainerKind {
        match k {
            ContainerKind::Workspace { direction, .. } => ContainerKind::Workspace {
                direction,
                display_state: ds,
            },
            _ => k,
        }
    }

    /// Activates the workspace `ws`: on the monitor that holds it, `ws`
    /// becomes `Shown` and every sibling workspace `Hidden`, so exactly
    /// one workspace per monitor is active. Ratios, identifiers and all
    /// other subtrees are untouched; on a miss the tree is structurally
    /// unchanged.
    #[verifier::loop_isolation(false)]
    pub fn activate_workspace(&mut self, ws: u64) -> (r: bool)
        requires
            old(self).wf(),
            old(self).distinct_ids(),
            ws != old(self).id,
        ensures
            final(self).id == old(self).id,
            final(self).kind == old(self).kind,
            final(self).ratio == old(self).ratio,
            r == (match old(self).parent_of(ws) {
                Some(p) => p.kind is Monitor,
                None => false,
            }),
            r ==> final(self).wf() && (forall|cid: u64|
                #[trigger] final(self).count_id(cid) == old(self).count_id(cid)) && (match (
            old(self).parent_of(ws), final(self).subtree(old(self).parent_of(ws).unwrap().id)) {
                (Some(p), Some(p2)) => p2.id == p.id && p2.kind == p.kind && p2.children@.len()
                    == p.children@.len() && (forall|j: int|
                    0 <= j < p2.children@.len() ==> (#[trigger] p2.children@[j]).id
                        == p.children@[j].id && p2.children@[j].ratio == p.children@[j].ratio
                        && p2.children@[j].kind == Self::redisplayed_kind(
                        p.children@[j].kind,
                        if p.children@[j].id == ws {
                            DisplayState::Shown
                        } else {
                            DisplayState::Hidden
                        },
                    )),
                _ => false,
            }),
            !r ==> same_tree(*final(self), *old(self)),
        decreases *old(self),
    {
        let ghost whole = *old(self);
        let n = self.children.len();
        let mut i: usize = 0;
        proof {
            assert(whole.children@.skip(0) =~= whole.children@);
        }
        while i < n
            invariant
                0 <= i <= n,
                self.id == whole.id,
                self.kind == whole.kind,
                self.ratio == whole.ratio,
                n == self.children@.len(),
                whole.children@.len() == n,
                forall|j: int| i <= j < n ==> #[trigger] self.children@[j] == whole.children@[j],
                forall|j: int|
                    0 <= j < i ==> same_tree(#[trigger] self.children@[j], whole.children@[j]),
                forall|j: int| 0 <= j < i ==> (#[trigger] whole.children@[j]).count_id(ws) == 0,
            decreases n - i,
        {
            proof {
                lemma_wf_in_iff(whole.children@);
                assert(whole.children@[i as int].wf());
                assert forall|cid: u64| true implies #[trigger] whole.children@[i as int].count_id(
                    cid,
                ) <= 1 by {
                    lemma_count_id_in_at(whole.children@, i as int, cid);
                    assert(whole.count_id(cid) <= 1);
                }
                assert(whole.children@[i as int].distinct_ids());
            }
            let ghost base = self.children@;
            if self.children[i].id == ws {
                // `self` is the monitor (or another direct parent): flip
                // every workspace child's display state.
                if !matches!(self.kind, ContainerKind::Monitor) {
                    proof {
                        lemma_finish_same_tree(*self, whole, i as int);
                        assert(whole.parent_of(ws) == Some(whole)) by {
                            assert(whole.children@[i as int].id == ws);
                        }
                    }
                    return false;
                }
                let m = self.children.len();
                let mut q: usize = 0;
                while q < m
                    invariant
                        0 <= q <= m,
                        m == n,
                        m == self.children@.len(),
                        self.id == whole.id,
                        self.kind == whole.kind,
                        self.ratio == whole.ratio,
                        forall|j: int| q <= j < m ==> #[trigger] self.children@[j] == base[j],
                        forall|j: int|
                            0 <= j < q ==> (#[trigger] self.children@[j]).id == base[j].id
                                && self.children@[j].ratio == base[j].ratio
                                && self.children@[j].children@ == base[j].children@
                                && self.children@[j].kind == Self::redisplayed_kind(
                                base[j].kind,
                                if base[j].id == ws {
                                    DisplayState::Shown
                                } else {
                                    DisplayState::Hidden
                                },
                            ),
                    decreases m - q,
                {
                    let ghost before = self.children@;
                    let mut c = self.children.remove(q);
                    let ghost oldn = c;
                    let target = c.id == ws;
                    c.kind = match c.kind {
                        ContainerKind::Workspace { direction, .. } => ContainerKind::Workspace {
                            direction,
                            display_state: if target {
                                DisplayState::Shown
                            } else {
                                DisplayState::Hidden
                            },
                        },
                        other => other,
                    };
                    let ghost newn = c;
                    self.children.insert(q, c);
                    proof {
                        assert(self.children@ =~= before.update(q as int, newn));
                    }
                    q += 1;
                }
                proof {
                    let after = self.children@;
                    assert forall|cid: u64| true implies #[trigger] (*self).count_id(cid)
                        == whole.count_id(cid) by {
                        assert forall|j: int| 0 <= j < n implies (#[trigger] after[j]).count_id(
                            cid,
                        ) == base[j].count_id(cid) by {
                            lemma_count_same_shape(after[j], base[j], cid);
                        }
                        lemma_count_id_in_pointwise(after, base, cid);
                        lemma_detach_base_counts(base, whole.children@, i as int);
                        lemma_count_id_in_pointwise(base, whole.children@, cid);
                    }
                    assert((*self).wf()) by {
                        assert forall|j: int| 0 <= j < n implies (#[trigger] after[j]).wf()
                            && Container::kind_allows_child(whole.kind, after[j].kind) && after[j].tiling_ratio()
                            == whole.children@[j].tiling_ratio() by {
                            if j < i {
                                crate::tree::lemma_same_tree_wf(base[j], whole.children@[j]);
                            }
                            assert(base[j].wf());
                            assert(after[j].wf()) by {
                                assert(after[j].children@ == base[j].children@);
                                assert(after[j].ratio == base[j].ratio);
                                assert(crate::tree::wf_in(after[j].children@) == crate::tree::wf_in(
                                    base[j].children@,
                                ));
                                assert(after[j].node_ok() == base[j].node_ok());
                            }
                        }
                        lemma_wf_in_iff(after);
                        lemma_ratio_sum_pointwise(after, whole.children@);
                        assert(crate::tree::has_tiling_child(after) == crate::tree::has_tiling_child(
                            whole.children@,
                        )) by {
                            if crate::tree::has_tiling_child(after) {
                                let w = choose|w: int|
                                    0 <= w < after.len() && #[trigger] after[w].participates_in_tiling();
                                assert(whole.children@[w].participates_in_tiling());
                            }
                            if crate::tree::has_tiling_child(whole.children@) {
                                let w = choose|w: int|
                                    0 <= w < whole.children@.len()
                                        && #[trigger] whole.children@[w].participates_in_tiling();
                                assert(after[w].participates_in_tiling());
                            }
                        }
                    }
                    assert(whole.parent_of(ws) == Some(whole)) by {
                        assert(whole.children@[i as int].id == ws);
                    }
                    assert((*self).subtree(whole.id) == Some(*self));
                    assert forall|j: int|
                        0 <= j < n implies (#[trigger] after[j]).kind == Self::redisplayed_kind(
                        whole.children@[j].kind,
                        if whole.children@[j].id == ws {
                            DisplayState::Shown
                        } else {
                            DisplayState::Hidden
                        },
                    ) && after[j].id == whole.children@[j].id && after[j].ratio
                        == whole.children@[j].ratio by {
                        if j < i {
                            assert(same_tree(base[j], whole.children@[j]));
                        }
                    }
                }
                return true;
            }
            let ghost oldch = self.children@[i as int];
            let mut ch = self.children.remove(i);
            let has = ch.id != ws && ch.contains(ws);
            let found = if has {
                ch.activate_workspace(ws)
            } else {
                false
            };
            let ghost newch = ch;
            self.children.insert(i, ch);
            proof {
                assert(self.children@ =~= base.update(i as int, newch));
            }
            if found {
                proof {
                    let after = self.children@;
                    lemma_detach_base_counts(base, whole.children@, i as int);
                    assert forall|cid: u64| true implies #[trigger] (*self).count_id(cid)
                        == whole.count_id(cid) by {
                        lemma_count_id_in_update(base, i as int, newch, cid);
                        lemma_count_id_in_pointwise(base, whole.children@, cid);
                    }
                    assert((*self).wf()) by {
                        lemma_wf_in_iff(whole.children@);
                        assert forall|j: int| 0 <= j < after.len() implies (
                        #[trigger] after[j]).wf() && Container::kind_allows_child(
                            whole.kind,
                            after[j].kind,
                        ) && after[j].tiling_ratio() == whole.children@[j].tiling_ratio() by {
                            if j != i {
                                assert(after[j] == base[j]);
                                if j < i {
                                    crate::tree::lemma_same_tree_wf(base[j], whole.children@[j]);
                                }
                            } else {
                                assert(after[j] == newch);
                            }
                        }
                        lemma_wf_in_iff(after);
                        lemma_ratio_sum_pointwise(after, whole.children@);
                        assert(crate::tree::has_tiling_child(after) == crate::tree::has_tiling_child(
                            whole.children@,
                        )) by {
                            if crate::tree::has_tiling_child(after) {
                                let w = choose|w: int|
                                    0 <= w < after.len() && #[trigger] after[w].participates_in_tiling();
                                assert(whole.children@[w].participates_in_tiling());
                            }
                            if crate::tree::has_tiling_child(whole.children@) {
                                let w = choose|w: int|
                                    0 <= w < whole.children@.len()
                                        && #[trigger] whole.children@[w].participates_in_tiling();
                                assert(after[w].participates_in_tiling());
                            }
                        }
                    }
                    // The monitor group lies inside the recursed child.
                    let p = oldch.parent_of(ws).unwrap();
                    lemma_parent_of_node(oldch, ws);
                    assert forall|j: int|
                        0 <= j < n && j != i implies (#[trigger] whole.children@[j]).count_id(ws)
                        == 0 && whole.children@[j].count_id(p.id) == 0 by {
                        if whole.children@[j].count_id(ws) >= 1 {
                            if j < i {
                                lemma_two_counts(whole.children@, j, i as int, ws);
                            } else {
                                lemma_two_counts(whole.children@, i as int, j, ws);
                            }
                            assert(whole.count_id(ws) >= 2);
                            assert(whole.count_id(ws) <= 1);
                        }
                        if whole.children@[j].count_id(p.id) >= 1 {
                            if j < i {
                                lemma_two_counts(whole.children@, j, i as int, p.id);
                            } else {
                                lemma_two_counts(whole.children@, i as int, j, p.id);
                            }
                            assert(whole.count_id(p.id) >= 2);
                            assert(whole.count_id(p.id) <= 1);
                        }
                    }
                    assert(whole.parent_of(ws) == Some(p)) by {
                        assert forall|j: int|
                            0 <= j < n implies (#[trigger] whole.children@[j]).id != ws by {
                            if j != i {
                                assert(whole.children@[j].count_id(whole.children@[j].id) >= 1);
                            }
                        }
                        lemma_parent_of_hit_sub(whole.children@, i as int, ws, oldch);
                    }
                    assert((*self).subtree(p.id) == newch.subtree(p.id)) by {
                        assert forall|j: int|
                            0 <= j < n && j != i implies (#[trigger] after[j]).count_id(p.id)
                            == 0 by {
                            lemma_count_same_shape(after[j], base[j], p.id);
                            if j < i {
                                crate::tree::lemma_same_tree_count(
                                    base[j],
                                    whole.children@[j],
                                    p.id,
                                );
                            }
                        }
                        lemma_subtree_hit_sub(after, i as int, p.id, newch);
                        assert(whole.id != p.id) by {
                            if whole.id == p.id {
                                lemma_count_id_in_at(whole.children@, i as int, p.id);
                                assert(whole.count_id(p.id) >= 2);
                                assert(whole.count_id(p.id) <= 1);
                            }
                        }
                    }
                }
                return true;
            }
            proof {
                assert(newch == oldch || same_tree(newch, oldch));
                if newch == oldch {
                    lemma_same_tree_refl(newch);
                }
                assert forall|j: int|
                    0 <= j < i + 1 implies same_tree(
                    #[trigger] self.children@[j],
                    whole.children@[j],
                ) by {
                    if j < i {
                        assert(self.children@[j] == base[j]);
                    } else {
                        assert(self.children@[j] == newch);
                    }
                }
            }
            if has {
                // The workspace lies below this child, under a parent
                // that is no monitor: the tree cannot hold it elsewhere.
                proof {
                    lemma_finish_same_tree(*self, whole, i as int + 1);
                    assert(oldch.count_id(ws) >= 1);
                    assert forall|j: int|
                        0 <= j < n implies (#[trigger] whole.children@[j]).id != ws by {
                        if whole.children@[j].id == ws {
                            assert(whole.children@[j].count_id(ws) >= 1);
                            if j != i {
                                if j < i {
                                    lemma_two_counts(whole.children@, j, i as int, ws);
                                } else {
                                    lemma_two_counts(whole.children@, i as int, j, ws);
                                }
                                assert(whole.count_id(ws) >= 2);
                                assert(whole.count_id(ws) <= 1);
                            }
                        }
                    }
                    assert forall|j: int|
                        0 <= j < n && j != i implies (#[trigger] whole.children@[j]).count_id(ws)
                        == 0 by {
                        if whole.children@[j].count_id(ws) >= 1 {
                            if j < i {
                                lemma_two_counts(whole.children@, j, i as int, ws);
                            } else {
                                lemma_two_counts(whole.children@, i as int, j, ws);
                            }
                            assert(whole.count_id(ws) >= 2);
                            assert(whole.count_id(ws) <= 1);
                        }
                    }
                    lemma_parent_of_hit_sub(whole.children@, i as int, ws, oldch);
                    assert(whole.parent_of(ws) == oldch.parent_of(ws));
                }
                return false;
            }
            proof {
                assert(oldch.count_id(ws) == 0);
            }
            i += 1;
        }
        proof {
            assert(whole.children@.skip(n as int) =~= Seq::<Container>::empty());
            lemma_finish_same_tree(*self, whole, n as int);
            assert forall|j: int|
                0 <= j < n implies (#[trigger] whole.children@[j]).count_id(ws) == 0 by {}
            lemma_all_zero_counts(whole.children@, ws);
            assert(whole.count_id(ws) == 0);
            lemma_parent_of_counts(whole, ws);
        }
        false
    }
}



impl Container {
    /// Whether a group's tiling direction runs along the direction `d`.
    pub open spec fn axis_matches(k: ContainerKind, d: crate::geometry::Direction) -> bool {
        match k {
            ContainerKind::Workspace { direction, .. } => match (direction, d) {
                (
                    crate::geometry::TilingDirection::Horizontal,
                    crate::geometry::Direction::Left,
                ) => true,
                (
                    crate::geometry::TilingDirection::Horizontal,
                    crate::geometry::Direction::Right,
                ) => true,
                (crate::geometry::TilingDirection::Vertical, crate::geometry::Direction::Up) => true,
                (
                    crate::geometry::TilingDirection::Vertical,
                    crate::geometry::Direction::Down,
                ) => true,
                _ => false,
            },
            ContainerKind::Split { direction } => match (direction, d) {
                (
                    crate::geometry::TilingDirection::Horizontal,
                    crate::geometry::Direction::Left,
                ) => true,
                (
                    crate::geometry::TilingDirection::Horizontal,
                    crate::geometry::Direction::Right,
                ) => true,
                (crate::geometry::TilingDirection::Vertical, crate::geometry::Direction::Up) => true,
                (
                    crate::geometry::TilingDirection::Vertical,
                    crate::geometry::Direction::Down,
                ) => true,
                _ => false,
            },
            _ => false,
        }
    }

    /// The sibling of `id` one step towards `d` within its parent group,
    /// when the group's tiling direction runs along `d`.
    #[verifier::loop_isolation(false)]
    pub fn neighbor_in_direction(&self, id: u64, d: crate::geometry::Direction) -> (r: Option<
        u64,
    >)
        requires
            self.wf(),
            self.distinct_ids(),
            id != self.id,
        ensures
            r matches Some(t) ==> self.contains_id(t) && (match self.parent_of(id) {
                Some(p) => Self::axis_matches(p.kind, d) && (exists|j: int|
                    0 <= j < p.children@.len() && (#[trigger] p.children@[j]).id == id && (match d {
                        crate::geometry::Direction::Left | crate::geometry::Direction::Up => j > 0
                            && t == p.children@[j - 1].id,
                        crate::geometry::Direction::Right
                        | crate::geometry::Direction::Down => j + 1 < p.children@.len() && t
                            == p.children@[j + 1].id,
                    })),
                None => false,
            }),
        decreases *self,
    {
        let n = self.children.len();
        let mut i: usize = 0;
        while i < n
            invariant
                0 <= i <= n,
                n == self.children@.len(),
            decreases n - i,
        {
            proof {
                lemma_wf_in_iff(self.children@);
                assert(self.children@[i as int].wf());
                assert forall|cid: u64| true implies #[trigger] self.children@[i as int].count_id(
                    cid,
                ) <= 1 by {
                    lemma_count_id_in_at(self.children@, i as int, cid);
                    assert(self.count_id(cid) <= 1);
                }
                assert(self.children@[i as int].distinct_ids());
            }
            if self.children[i].id == id {
                proof {
                    assert(self.parent_of(id) == Some(*self)) by {
                        assert(self.children@[i as int].id == id);
                    }
                }
                let axis_ok = match (self.kind, d) {
                    (
                        ContainerKind::Workspace {
                            direction: crate::geometry::TilingDirection::Horizontal,
                            ..
                        },
                        crate::geometry::Direction::Left
                        | crate::geometry::Direction::Right,
                    ) => true,
                    (
                        ContainerKind::Workspace {
                            direction: crate::geometry::TilingDirection::Vertical,
                            ..
                        },
                        crate::geometry::Direction::Up | crate::geometry::Direction::Down,
                    ) => true,
                    (
                        ContainerKind::Split {
                            direction: crate::geometry::TilingDirection::Horizontal,
                        },
                        crate::geometry::Direction::Left
                        | crate::geometry::Direction::Right,
                    ) => true,
                    (
                        ContainerKind::Split {
                            direction: crate::geometry::TilingDirection::Vertical,
                        },
                        crate::geometry::Direction::Up | crate::geometry::Direction::Down,
                    ) => true,
                    _ => false,
                };
                if !axis_ok {
                    return None;
                }
                let towards_start = matches!(
                    d,
                    crate::geometry::Direction::Left | crate::geometry::Direction::Up
                );
                if towards_start {
                    if i > 0 {
                        let t = self.children[i - 1].id;
                        proof {
                            assert(self.children@[i - 1].count_id(t) >= 1);
                            lemma_count_id_in_at(self.children@, i as int - 1, t);
                        }
                        return Some(t);
                    }
                    return None;
                }
                if i + 1 < n {
                    let t = self.children[i + 1].id;
                    proof {
                        assert(self.children@[i + 1].count_id(t) >= 1);
                        lemma_count_id_in_at(self.children@, i as int + 1, t);
                    }
                    return Some(t);
                }
                return None;
            }
            if self.children[i].contains(id) {
                let sub = self.children[i].neighbor_in_direction(id, d);
                proof {
                    let oldch = self.children@[i as int];
                    assert(oldch.count_id(id) >= 1);
                    assert forall|j: int|
                        0 <= j < n implies (#[trigger] self.children@[j]).id != id by {
                        if self.children@[j].id == id {
                            assert(self.children@[j].count_id(id) >= 1);
                            if j != i {
                                if j < i {
                                    lemma_two_counts(self.children@, j, i as int, id);
                                } else {
                                    lemma_two_counts(self.children@, i as int, j, id);
                                }
                                assert(self.count_id(id) >= 2);
                                assert(self.count_id(id) <= 1);
                            }
                        }
                    }
                    assert forall|j: int|
                        0 <= j < n && j != i implies (#[trigger] self.children@[j]).count_id(id)
                        == 0 by {
                        if self.children@[j].count_id(id) >= 1 {
                            if j < i {
                                lemma_two_counts(self.children@, j, i as int, id);
                            } else {
                                lemma_two_counts(self.children@, i as int, j, id);
                            }
                            assert(self.count_id(id) >= 2);
                            assert(self.count_id(id) <= 1);
                        }
                    }
                    lemma_parent_of_hit_sub(self.children@, i as int, id, oldch);
                    match sub {
                        Some(t) => {
                            lemma_count_id_in_at(self.children@, i as int, t);
                        },
                        None => {
                        },
                    }
                }
                return sub;
            }
            i += 1;
        }
        None
    }
}

} // verus!
