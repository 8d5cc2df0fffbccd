//! The pending sync scheduler: accumulates, over one processing cycle,
//! the deduplicated sets of containers to redraw and workspaces to
//! reorder, plus the focus-change, focused-effect and cursor flags, and
//! hands them out once in a single flush that clears everything.

use vstd::prelude::*;

verus! {

/// Deduplicated identifier list.
pub open spec fn distinct_seq(s: Seq<u64>) -> bool {
    forall|i: int, j: int| 0 <= i < j < s.len() ==> #[trigger] s[i] != #[trigger] s[j]
}

/// The batched effects of one processing cycle.
pub struct PendingSync {
    pub containers_to_redraw: Vec<u64>,
    pub workspaces_to_reorder: Vec<u64>,
    pub focus_change: bool,
    pub focused_effect_update: bool,
    pub cursor_jump: bool,
}

/// What one flush tells the platform to do: one rect update per dirtied
/// container, one reorder per dirtied workspace, at most one
/// focus-effect application.
pub struct FlushPlan {
    pub redraws: Vec<u64>,
    pub reorders: Vec<u64>,
    pub reassert_focus: bool,
    pub apply_focused_effect: bool,
    pub jump_cursor: bool,
}

impl PendingSync {
    /// Both queues hold each identifier at most once.
    pub open spec fn inv(self) -> bool {
        distinct_seq(self.containers_to_redraw@) && distinct_seq(self.workspaces_to_reorder@)
    }

    /// Nothing queued, no flags raised.
    pub open spec fn is_clear(self) -> bool {
        &&& self.containers_to_redraw@.len() == 0
        &&& self.workspaces_to_reorder@.len() == 0
        &&& !self.focus_change
        &&& !self.focused_effect_update
        &&& !self.cursor_jump
    }

    /// An empty scheduler.
    pub fn new() -> (r: PendingSync)
        ensures
            r.inv(),
            r.is_clear(),
    {
        PendingSync {
            containers_to_redraw: Vec::new(),
            workspaces_to_reorder: Vec::new(),
            focus_change: false,
            focused_effect_update: false,
            cursor_jump: false,
        }
    }

    /// Queues a focus re-assertion towards the manager's intended focus
    /// target.
    pub fn queue_focus_change(&mut self)
        ensures
            *final(self) == (PendingSync { focus_change: true, ..*old(self) }),
    {
        self.focus_change = true;
    }

    /// Queues a refresh of the focus visuals.
    pub fn queue_focused_effect_update(&mut self)
        ensures
            *final(self) == (PendingSync { focused_effect_update: true, ..*old(self) }),
    {
        self.focused_effect_update = true;
    }

    /// Queues a cursor jump to the focused container.
    pub fn queue_cursor_jump(&mut self)
        ensures
            *final(self) == (PendingSync { cursor_jump: true, ..*old(self) }),
    {
        self.cursor_jump = true;
    }

    /// Marks one container as needing a redraw; queueing twice changes
    /// nothing.
    pub fn queue_redraw(&mut self, id: u64)
        requires
            old(self).inv(),
        ensures
            final(self).inv(),
            final(self).containers_to_redraw@.to_set() == old(self).containers_to_redraw@.to_set().insert(id),
            final(self).workspaces_to_reorder == old(self).workspaces_to_reorder,
            final(self).focus_change == old(self).focus_change,
            final(self).focused_effect_update == old(self).focused_effect_update,
            final(self).cursor_jump == old(self).cursor_jump,
    {
        let present = contains_id(&self.containers_to_redraw, id);
        if !present {
            self.containers_to_redraw.push(id);
        }
        proof {
            let olds = old(self).containers_to_redraw@;
            if present {
                assert(olds.to_set() =~= olds.to_set().insert(id));
            } else {
                assert(self.containers_to_redraw@ =~= olds.push(id));
                assert(olds.push(id).to_set() =~= olds.to_set().insert(id)) by {
                    assert forall|x: u64| olds.push(id).to_set().contains(x) implies olds.to_set().insert(id).contains(x) by {
                        assert(olds.push(id).contains(x));
                    }
                    assert forall|x: u64| olds.to_set().insert(id).contains(x) implies olds.push(id).to_set().contains(x) by {
                        if x == id {
                            assert(olds.push(id)[olds.len() as int] == id);
                            assert(olds.push(id).contains(x));
                        } else {
                            assert(olds.contains(x));
                            let w = choose|w: int| 0 <= w < olds.len() && olds[w] == x;
                            assert(olds.push(id)[w] == x);
                            assert(olds.push(id).contains(x));
                        }
                    }
                }
            }
        }
    }

    /// Marks one workspace as needing a reorder; queueing twice changes
    /// nothing.
    pub fn queue_workspace_to_reorder(&mut self, ws: u64)
        requires
            old(self).inv(),
        ensures
            final(self).inv(),
            final(self).workspaces_to_reorder@.to_set() == old(self).workspaces_to_reorder@.to_set().insert(ws),
            final(self).containers_to_redraw == old(self).containers_to_redraw,
            final(self).focus_change == old(self).focus_change,
            final(self).focused_effect_update == old(self).focused_effect_update,
            final(self).cursor_jump == old(self).cursor_jump,
    {
        let present = contains_id(&self.workspaces_to_reorder, ws);
        if !present {
            self.workspaces_to_reorder.push(ws);
        }
        proof {
            let olds = old(self).workspaces_to_reorder@;
            if present {
                assert(olds.to_set() =~= olds.to_set().insert(ws));
            } else {
                assert(self.workspaces_to_reorder@ =~= olds.push(ws));
                assert(olds.push(ws).to_set() =~= olds.to_set().insert(ws)) by {
                    assert forall|x: u64| olds.push(ws).to_set().contains(x) implies olds.to_set().insert(ws).contains(x) by {
                        assert(olds.push(ws).contains(x));
                    }
                    assert forall|x: u64| olds.to_set().insert(ws).contains(x) implies olds.push(ws).to_set().contains(x) by {
                        if x == ws {
                            assert(olds.push(ws)[olds.len() as int] == ws);
                            assert(olds.push(ws).contains(x));
                        } else {
                            assert(olds.contains(x));
                            let w = choose|w: int| 0 <= w < olds.len() && olds[w] == x;
                            assert(olds.push(ws)[w] == x);
                            assert(olds.push(ws).contains(x));
                        }
                    }
                }
            }
        }
    }

    /// Hands out everything queued in this cycle, once, and clears the
    /// scheduler: the minimal set of native calls for the cycle.
    pub fn flush(&mut self) -> (plan: FlushPlan)
        requires
            old(self).inv(),
        ensures
            final(self).inv(),
            final(self).is_clear(),
            plan.redraws@ == old(self).containers_to_redraw@,
            plan.reorders@ == old(self).workspaces_to_reorder@,
            distinct_seq(plan.redraws@),
            distinct_seq(plan.reorders@),
            plan.reassert_focus == old(self).focus_change,
            plan.apply_focused_effect == old(self).focused_effect_update,
            plan.jump_cursor == old(self).cursor_jump,
    {
        let redraws = copy_ids(&self.containers_to_redraw);
        let reorders = copy_ids(&self.workspaces_to_reorder);
        let plan = FlushPlan {
            redraws,
            reorders,
            reassert_focus: self.focus_change,
            apply_focused_effect: self.focused_effect_update,
            jump_cursor: self.cursor_jump,
        };
        self.containers_to_redraw = Vec::new();
        self.workspaces_to_reorder = Vec::new();
        self.focus_change = false;
        self.focused_effect_update = false;
        self.cursor_jump = false;
        plan
    }
}

/// Whether the list holds `id`.
fn contains_id(v: &Vec<u64>, id: u64) -> (r: bool)
    ensures
        r == v@.contains(id),
{
    let n = v.len();
    let mut i: usize = 0;
    while i < n
        invariant
            0 <= i <= n,
            n == v@.len(),
            forall|j: int| 0 <= j < i ==> v@[j] != id,
        decreases n - i,
    {
        if v[i] == id {
            return true;
        }
        i += 1;
    }
    false
}

/// A copy of an identifier list.
fn copy_ids(v: &Vec<u64>) -> (r: Vec<u64>)
    ensures
        r@ == v@,
{
    let mut r: Vec<u64> = Vec::new();
    let n = v.len();
    let mut i: usize = 0;
    while i < n
        invariant
            0 <= i <= n,
            n == v@.len(),
            r@ == v@.take(i as int),
        decreases n - i,
    {
        r.push(v[i]);
        proof {
            assert(r@ =~= v@.take(i as int + 1));
        }
        i += 1;
    }
    proof {
        assert(v@.take(n as int) =~= v@);
    }
    r
}

} // verus!
