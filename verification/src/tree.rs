//! The container tree: monitors, workspaces, split containers and
//! windows, held as an owned hierarchy in tiling/stacking order.
//!
//! Size ratios are exact fixed-point fractions of `RATIO_UNIT`; within a
//! workspace or split container, the ratios of the children that
//! participate in tiling always sum to exactly `RATIO_UNIT`.

use vstd::prelude::*;

use crate::geometry::TilingDirection;

verus! {

/// Denominator of all size ratios: a ratio `r` stands for `r / RATIO_UNIT`
/// of the parent's extent along the tiling axis.
pub const RATIO_UNIT: u32 = 10000;

/// How a window takes part in layout.
#[derive(Clone, Copy, Debug, PartialEq, Eq, Structural)]
pub enum TilingState {
    Tiling,
    Floating,
    Fullscreen,
    Minimized,
}

/// Visibility lifecycle of a window or workspace.
#[derive(Clone, Copy, Debug, PartialEq, Eq, Structural)]
pub enum DisplayState {
    Shown,
    Hiding,
    Hidden,
}

/// Kind of an in-progress interactive drag.
#[derive(Clone, Copy, Debug, PartialEq, Eq, Structural)]
pub enum DragOperation {
    Moving,
    Resizing,
}

/// Transient state recorded while the user interactively moves or
/// resizes a window; `operation` is filled in lazily by a later drag
/// progress event and stays `None` until then.
#[derive(Clone, Copy, Debug, PartialEq, Eq, Structural)]
pub struct ActiveDrag {
    pub operation: Option<DragOperation>,
    pub is_from_tiling: bool,
}

/// Variant-specific data of a container.
#[derive(Clone, Copy, Debug, PartialEq, Eq, Structural)]
pub enum ContainerKind {
    Root,
    Monitor,
    Workspace { direction: TilingDirection, display_state: DisplayState },
    Split { direction: TilingDirection },
    Window {
        handle: u64,
        tiling_state: TilingState,
        display_state: DisplayState,
        active_drag: Option<ActiveDrag>,
    },
}

/// A node of the container tree. `children` is ordered: the order is the
/// tiling and stacking order. `ratio` is the share of the parent's extent
/// along the parent's tiling axis, in units of `RATIO_UNIT`.
#[verifier::ext_equal]
pub struct Container {
    pub id: u64,
    pub ratio: u32,
    pub kind: ContainerKind,
    pub children: Vec<Container>,
}

impl Container {
    /// Whether this container takes a ratio share of its parent's extent:
    /// split containers always do, windows only while in `Tiling` state.
    pub open spec fn participates_in_tiling(self) -> bool {
        match self.kind {
            ContainerKind::Split { .. } => true,
            ContainerKind::Window { tiling_state, .. } => tiling_state is Tiling,
            _ => false,
        }
    }

    /// The ratio this container contributes to its siblings' sum.
    pub open spec fn tiling_ratio(self) -> int {
        if self.participates_in_tiling() {
            self.ratio as int
        } else {
            0
        }
    }

    /// Number of nodes in this subtree carrying `id`.
    pub open spec fn count_id(self, id: u64) -> nat
        decreases self,
    {
        (if self.id == id { 1nat } else { 0nat }) + count_id_in(self.children@, id)
    }

    /// Whether some node of this subtree carries `id`.
    pub open spec fn contains_id(self, id: u64) -> bool {
        self.count_id(id) > 0
    }

    /// Whether a child kind may stand under a parent kind: monitors under
    /// the root, workspaces under monitors, splits and windows below.
    pub open spec fn kind_allows_child(parent: ContainerKind, child: ContainerKind) -> bool {
        match parent {
            ContainerKind::Root => child is Monitor,
            ContainerKind::Monitor => child is Workspace,
            ContainerKind::Workspace { .. } => child is Split || child is Window,
            ContainerKind::Split { .. } => child is Split || child is Window,
            ContainerKind::Window { .. } => false,
        }
    }

    /// Whether this node is a tiling group: a parent whose tiling
    /// children share its extent by ratio.
    pub open spec fn is_tiling_group(self) -> bool {
        self.kind is Workspace || self.kind is Split
    }

    /// Ratio discipline at this single node: if any child participates in
    /// tiling, the participating children's ratios sum to `RATIO_UNIT`.
    pub open spec fn ratios_ok(self) -> bool {
        self.is_tiling_group() && has_tiling_child(self.children@) ==> ratio_sum(
            self.children@,
        ) == RATIO_UNIT as int
    }

    /// Conditions on this node alone: child kinds match the parent kind,
    /// windows are leaves, split containers are never childless, the
    /// child list is bounded, the ratio is a proper fraction, and the
    /// tiling group ratio discipline holds.
    pub open spec fn node_ok(self) -> bool {
        &&& (forall|i: int|
            0 <= i < self.children@.len() ==> Self::kind_allows_child(
                self.kind,
                #[trigger] self.children@[i].kind,
            ))
        &&& (self.kind is Window ==> self.children@.len() == 0)
        &&& (self.kind is Split ==> self.children@.len() >= 1)
        &&& self.children@.len() <= 0x0100_0000
        &&& self.ratio <= RATIO_UNIT
        &&& self.ratios_ok()
    }

    /// Structural well-formedness of the whole subtree: `node_ok` at
    /// every node.
    pub open spec fn wf(self) -> bool
        decreases self,
    {
        self.node_ok() && wf_in(self.children@)
    }

    /// Well-formedness of everything below, allowing this node itself to
    /// be a childless split container: the transient state right after a
    /// detach, before the parent collapses the emptied split.
    pub open spec fn wf_but_empty_split(self) -> bool {
        &&& (forall|i: int|
            0 <= i < self.children@.len() ==> Self::kind_allows_child(
                self.kind,
                #[trigger] self.children@[i].kind,
            ))
        &&& (self.kind is Window ==> self.children@.len() == 0)
        &&& self.children@.len() <= 0x0100_0000
        &&& self.ratio <= RATIO_UNIT
        &&& self.ratios_ok()
        &&& wf_in(self.children@)
    }

    /// No identifier occurs twice in this subtree.
    pub open spec fn distinct_ids(self) -> bool {
        forall|id: u64| #[trigger] self.count_id(id) <= 1
    }

}

/// `wf` over a sequence of subtrees.
pub open spec fn wf_in(s: Seq<Container>) -> bool
    decreases s,
{
    s.len() == 0 || (s[0].wf() && wf_in(s.drop_first()))
}


/// A sequence is well-formed exactly when each of its subtrees is.
pub proof fn lemma_wf_in_iff(s: Seq<Container>)
    ensures
        wf_in(s) <==> (forall|j: int| 0 <= j < s.len() ==> (#[trigger] s[j]).wf()),
    decreases s,
{
    if s.len() > 0 {
        lemma_wf_in_iff(s.drop_first());
        assert(forall|j: int|
            0 <= j < s.drop_first().len() ==> #[trigger] s.drop_first()[j] == s[j + 1]);
        if wf_in(s) {
            assert forall|j: int| 0 <= j < s.len() implies (#[trigger] s[j]).wf() by {
                if j > 0 {
                    assert(s.drop_first()[j - 1].wf());
                }
            }
        }
    }
}


/// Sum of `count_id` over a sequence of containers.
pub open spec fn count_id_in(s: Seq<Container>, id: u64) -> nat
    decreases s,
{
    if s.len() == 0 {
        0nat
    } else {
        s[0].count_id(id) + count_id_in(s.drop_first(), id)
    }
}

/// Sum of the tiling ratios of a sequence of containers.
pub open spec fn ratio_sum(s: Seq<Container>) -> int
    decreases s,
{
    if s.len() == 0 {
        0
    } else {
        s[0].tiling_ratio() + ratio_sum(s.drop_first())
    }
}

/// Whether some container of the sequence participates in tiling.
pub open spec fn has_tiling_child(s: Seq<Container>) -> bool {
    exists|i: int| 0 <= i < s.len() && #[trigger] s[i].participates_in_tiling()
}

/// Copy of the attributes of one window node, handed out by lookups.
#[derive(Clone, Copy, Debug, PartialEq, Eq, Structural)]
pub struct WindowInfo {
    pub id: u64,
    pub handle: u64,
    pub tiling_state: TilingState,
    pub display_state: DisplayState,
    pub active_drag: Option<ActiveDrag>,
}

impl Container {
    /// The attributes of this node, if it is a window.
    pub open spec fn window_info(self) -> Option<WindowInfo> {
        match self.kind {
            ContainerKind::Window { handle, tiling_state, display_state, active_drag } => Some(
                WindowInfo { id: self.id, handle, tiling_state, display_state, active_drag },
            ),
            _ => None,
        }
    }

    /// The first window of this subtree (in tree order) whose native
    /// handle is `handle`.
    pub open spec fn find_window(self, handle: u64) -> Option<WindowInfo>
        decreases self,
    {
        match self.kind {
            ContainerKind::Window { handle: h, .. } => if h == handle {
                self.window_info()
            } else {
                None
            },
            _ => find_window_in(self.children@, handle),
        }
    }

    /// The first workspace of this subtree (in tree order) that contains
    /// the container `id`.
    pub open spec fn workspace_of(self, id: u64) -> Option<u64>
        decreases self,
    {
        if self.kind is Workspace {
            if self.contains_id(id) {
                Some(self.id)
            } else {
                None
            }
        } else {
            workspace_of_in(self.children@, id)
        }
    }
}

/// First window with the given handle over a sequence of subtrees.
pub open spec fn find_window_in(s: Seq<Container>, handle: u64) -> Option<WindowInfo>
    decreases s,
{
    if s.len() == 0 {
        None
    } else {
        match s[0].find_window(handle) {
            Some(w) => Some(w),
            None => find_window_in(s.drop_first(), handle),
        }
    }
}

/// First workspace containing `id` over a sequence of subtrees.
pub open spec fn workspace_of_in(s: Seq<Container>, id: u64) -> Option<u64>
    decreases s,
{
    if s.len() == 0 {
        None
    } else {
        match s[0].workspace_of(id) {
            Some(w) => Some(w),
            None => workspace_of_in(s.drop_first(), id),
        }
    }
}

/// Skipping one container splits the count: used to walk child lists.
pub proof fn lemma_count_id_in_skip(s: Seq<Container>, i: int, id: u64)
    requires
        0 <= i < s.len(),
    ensures
        count_id_in(s.skip(i), id) == s[i].count_id(id) + count_id_in(s.skip(i + 1), id),
{
    assert(s.skip(i).len() > 0);
    assert(s.skip(i)[0] == s[i]);
    assert(s.skip(i).drop_first() =~= s.skip(i + 1));
}

/// Same splitting fact for `find_window_in`.
proof fn lemma_find_window_in_skip(s: Seq<Container>, i: int, handle: u64)
    requires
        0 <= i < s.len(),
    ensures
        find_window_in(s.skip(i), handle) == (match s[i].find_window(handle) {
            Some(w) => Some(w),
            None => find_window_in(s.skip(i + 1), handle),
        }),
{
    assert(s.skip(i).len() > 0);
    assert(s.skip(i)[0] == s[i]);
    assert(s.skip(i).drop_first() =~= s.skip(i + 1));
}

/// Same splitting fact for `workspace_of_in`.
proof fn lemma_workspace_of_in_skip(s: Seq<Container>, i: int, id: u64)
    requires
        0 <= i < s.len(),
    ensures
        workspace_of_in(s.skip(i), id) == (match s[i].workspace_of(id) {
            Some(w) => Some(w),
            None => workspace_of_in(s.skip(i + 1), id),
        }),
{
    assert(s.skip(i).len() > 0);
    assert(s.skip(i)[0] == s[i]);
    assert(s.skip(i).drop_first() =~= s.skip(i + 1));
}

impl Container {
    /// Executable check of `participates_in_tiling`.
    pub fn participates(&self) -> (r: bool)
        ensures
            r == self.participates_in_tiling(),
    {
        match self.kind {
            ContainerKind::Split { .. } => true,
            ContainerKind::Window { tiling_state, .. } => matches!(
                tiling_state,
                TilingState::Tiling
            ),
            _ => false,
        }
    }

    /// Whether the container `id` occurs in this subtree.
    pub fn contains(&self, id: u64) -> (r: bool)
        ensures
            r == self.contains_id(id),
        decreases *self,
    {
        if self.id == id {
            return true;
        }
        let n = self.children.len();
        let mut i: usize = 0;
        assert(self.children@.skip(0) =~= self.children@);
        while i < n
            invariant
                n == self.children@.len(),
                0 <= i <= n,
                self.id != id,
                count_id_in(self.children@, id) == count_id_in(self.children@.skip(i as int), id),
            decreases n - i,
        {
            proof {
                lemma_count_id_in_skip(self.children@, i as int, id);
            }
            if self.children[i].contains(id) {
                return true;
            }
            i += 1;
        }
        assert(self.children@.skip(n as int) =~= Seq::<Container>::empty());
        false
    }

    /// Looks up the first window with the given native handle.
    pub fn lookup_window(&self, handle: u64) -> (r: Option<WindowInfo>)
        ensures
            r == self.find_window(handle),
        decreases *self,
    {
        match self.kind {
            ContainerKind::Window { handle: h, tiling_state, display_state, active_drag } => {
                if h == handle {
                    Some(
                        WindowInfo {
                            id: self.id,
                            handle: h,
                            tiling_state,
                            display_state,
                            active_drag,
                        },
                    )
                } else {
                    None
                }
            },
            _ => {
                let n = self.children.len();
                let mut i: usize = 0;
                assert(self.children@.skip(0) =~= self.children@);
                while i < n
                    invariant
                        n == self.children@.len(),
                        0 <= i <= n,
                        !(self.kind is Window),
                        find_window_in(self.children@, handle) == find_window_in(
                            self.children@.skip(i as int),
                            handle,
                        ),
                    decreases n - i,
                {
                    proof {
                        lemma_find_window_in_skip(self.children@, i as int, handle);
                    }
                    let found = self.children[i].lookup_window(handle);
                    if found.is_some() {
                        return found;
                    }
                    i += 1;
                }
                assert(self.children@.skip(n as int) =~= Seq::<Container>::empty());
                None
            },
        }
    }

    /// Looks up the workspace that holds the container `id`.
    pub fn lookup_workspace_of(&self, id: u64) -> (r: Option<u64>)
        ensures
            r == self.workspace_of(id),
        decreases *self,
    {
        if matches!(self.kind, ContainerKind::Workspace { .. }) {
            if self.contains(id) {
                Some(self.id)
            } else {
                None
            }
        } else {
            let n = self.children.len();
            let mut i: usize = 0;
            assert(self.children@.skip(0) =~= self.children@);
            while i < n
                invariant
                    n == self.children@.len(),
                    0 <= i <= n,
                    !(self.kind is Workspace),
                    workspace_of_in(self.children@, id) == workspace_of_in(
                        self.children@.skip(i as int),
                        id,
                    ),
                decreases n - i,
            {
                proof {
                    lemma_workspace_of_in_skip(self.children@, i as int, id);
                }
                let found = self.children[i].lookup_workspace_of(id);
                if found.is_some() {
                    return found;
                }
                i += 1;
            }
            assert(self.children@.skip(n as int) =~= Seq::<Container>::empty());
            None
        }
    }
}

/// Structural equality of two trees: same identifiers, ratios, kinds
/// and children, compared node by node. This is the meaning of "the
/// tree is unchanged" in contracts.
pub open spec fn same_tree(a: Container, b: Container) -> bool
    decreases a,
{
    &&& a.id == b.id
    &&& a.ratio == b.ratio
    &&& a.kind == b.kind
    &&& same_tree_in(a.children@, b.children@)
}

/// `same_tree` over two child lists.
pub open spec fn same_tree_in(s1: Seq<Container>, s2: Seq<Container>) -> bool
    decreases s1,
{
    s1.len() == s2.len() && (s1.len() == 0 || (same_tree(s1[0], s2[0]) && same_tree_in(
        s1.drop_first(),
        s2.drop_first(),
    )))
}

/// Structural equality is reflexive.
pub proof fn lemma_same_tree_refl(a: Container)
    ensures
        same_tree(a, a),
    decreases a,
{
    lemma_same_tree_in_refl(a.children@);
}

/// Reflexivity over child lists.
pub proof fn lemma_same_tree_in_refl(s: Seq<Container>)
    ensures
        same_tree_in(s, s),
    decreases s,
{
    if s.len() > 0 {
        lemma_same_tree_refl(s[0]);
        lemma_same_tree_in_refl(s.drop_first());
    }
}

/// Structural equality is symmetric.
pub proof fn lemma_same_tree_sym(a: Container, b: Container)
    requires
        same_tree(a, b),
    ensures
        same_tree(b, a),
    decreases a,
{
    lemma_same_tree_in_pointwise(a.children@, b.children@);
    lemma_same_tree_in_pointwise(b.children@, a.children@);
    assert forall|j: int| 0 <= j < b.children@.len() implies same_tree(
        #[trigger] b.children@[j],
        a.children@[j],
    ) by {
        lemma_same_tree_sym(a.children@[j], b.children@[j]);
    }
}

/// Child lists are structurally equal exactly when they are pointwise so.
pub proof fn lemma_same_tree_in_pointwise(s1: Seq<Container>, s2: Seq<Container>)
    ensures
        same_tree_in(s1, s2) <==> (s1.len() == s2.len() && (forall|j: int|
            0 <= j < s1.len() ==> same_tree(#[trigger] s1[j], s2[j]))),
    decreases s1,
{
    if s1.len() > 0 && s1.len() == s2.len() {
        lemma_same_tree_in_pointwise(s1.drop_first(), s2.drop_first());
        assert(forall|j: int|
            0 <= j < s1.drop_first().len() ==> #[trigger] s1.drop_first()[j] == s1[j + 1]
                && s2.drop_first()[j] == s2[j + 1]);
        if same_tree_in(s1, s2) {
            assert forall|j: int| 0 <= j < s1.len() implies same_tree(#[trigger] s1[j], s2[j]) by {
                if j > 0 {
                    assert(same_tree(s1.drop_first()[j - 1], s2.drop_first()[j - 1]));
                }
            }
        }
    }
}

/// Structurally equal trees count every identifier alike.
pub proof fn lemma_same_tree_count(a: Container, b: Container, id: u64)
    requires
        same_tree(a, b),
    ensures
        a.count_id(id) == b.count_id(id),
    decreases a,
{
    lemma_same_tree_count_in(a.children@, b.children@, id);
}

/// Count congruence over child lists.
pub proof fn lemma_same_tree_count_in(s1: Seq<Container>, s2: Seq<Container>, id: u64)
    requires
        same_tree_in(s1, s2),
    ensures
        count_id_in(s1, id) == count_id_in(s2, id),
    decreases s1,
{
    if s1.len() > 0 {
        lemma_same_tree_count(s1[0], s2[0], id);
        lemma_same_tree_count_in(s1.drop_first(), s2.drop_first(), id);
    }
}

/// Structurally equal trees are equally well-formed.
pub proof fn lemma_same_tree_wf(a: Container, b: Container)
    requires
        same_tree(a, b),
    ensures
        a.wf() == b.wf(),
        a.node_ok() == b.node_ok(),
    decreases a,
{
    lemma_same_tree_in_pointwise(a.children@, b.children@);
    lemma_ratio_sum_congruence(a.children@, b.children@);
    assert forall|i: int|
        0 <= i < a.children@.len() implies (#[trigger] a.children@[i]).kind == b.children@[i].kind
        && a.children@[i].wf() == b.children@[i].wf() && a.children@[i].participates_in_tiling()
        == b.children@[i].participates_in_tiling() by {
        assert(same_tree(a.children@[i], b.children@[i]));
        lemma_same_tree_wf(a.children@[i], b.children@[i]);
    }
    assert(has_tiling_child(a.children@) == has_tiling_child(b.children@)) by {
        if has_tiling_child(a.children@) {
            let i = choose|i: int|
                0 <= i < a.children@.len() && #[trigger] a.children@[i].participates_in_tiling();
            assert(b.children@[i].participates_in_tiling());
        }
        if has_tiling_child(b.children@) {
            let i = choose|i: int|
                0 <= i < b.children@.len() && #[trigger] b.children@[i].participates_in_tiling();
            assert(a.children@[i].participates_in_tiling());
        }
    }
    lemma_wf_in_iff(a.children@);
    lemma_wf_in_iff(b.children@);
    assert(a.ratios_ok() == b.ratios_ok());
    assert forall|i: int|
        0 <= i < a.children@.len() implies Container::kind_allows_child(
            a.kind,
            (#[trigger] a.children@[i]).kind,
        ) == Container::kind_allows_child(b.kind, b.children@[i].kind) by {
        assert(a.children@[i].kind == b.children@[i].kind);
    }
    assert(a.node_ok() == b.node_ok()) by {
        assert(a.children@.len() == b.children@.len());
        if a.node_ok() {
            assert forall|i: int|
                0 <= i < b.children@.len() implies Container::kind_allows_child(
                    b.kind,
                    (#[trigger] b.children@[i]).kind,
                ) by {
                assert(Container::kind_allows_child(a.kind, a.children@[i].kind));
                assert(a.children@[i].kind == b.children@[i].kind);
            }
        }
        if b.node_ok() {
            assert forall|i: int|
                0 <= i < a.children@.len() implies Container::kind_allows_child(
                    a.kind,
                    (#[trigger] a.children@[i]).kind,
                ) by {
                assert(Container::kind_allows_child(b.kind, b.children@[i].kind));
                assert(a.children@[i].kind == b.children@[i].kind);
            }
        }
    }
    assert(wf_in(a.children@) == wf_in(b.children@)) by {
        if wf_in(a.children@) {
            assert forall|j: int|
                0 <= j < b.children@.len() implies (#[trigger] b.children@[j]).wf() by {
                assert(a.children@[j].wf());
            }
        }
        if wf_in(b.children@) {
            assert forall|j: int|
                0 <= j < a.children@.len() implies (#[trigger] a.children@[j]).wf() by {
                assert(b.children@[j].wf());
            }
        }
    }
}

/// Ratio sums agree on structurally equal child lists.
pub proof fn lemma_ratio_sum_congruence(s1: Seq<Container>, s2: Seq<Container>)
    requires
        same_tree_in(s1, s2),
    ensures
        ratio_sum(s1) == ratio_sum(s2),
    decreases s1,
{
    if s1.len() > 0 {
        assert(same_tree(s1[0], s2[0]));
        assert(s1[0].tiling_ratio() == s2[0].tiling_ratio());
        lemma_ratio_sum_congruence(s1.drop_first(), s2.drop_first());
    }
}


} // verus!
