//! Process-wide window manager state and the event handlers: the
//! container forest, the focus pointer, the paused flag, the pending
//! sync scheduler and the unmanage/minimize timestamp used for the
//! 100ms focus-override window.

use vstd::prelude::*;

use crate::ops::WindowPatch;
use crate::pending::PendingSync;
use crate::tree::{ActiveDrag, Container, ContainerKind, DisplayState, TilingState};
use crate::WmError;

verus! {

/// Milliseconds after an unmanage or minimize during which an OS focus
/// event towards another window is treated as spurious and overridden.
pub const FOCUS_OVERRIDE_MS: u64 = 100;

/// The whole mutable state of the window manager process.
pub struct WmState {
    pub root: Container,
    pub focused_id: u64,
    pub paused: bool,
    pub pending: PendingSync,
    pub unmanaged_or_minimized_at: Option<u64>,
    pub next_id: u64,
    pub binding_modes: Vec<String>,
}

impl WmState {
    /// The state invariant: a well-formed forest with unique identifiers,
    /// a focus pointer that resolves (exactly one focus path exists), and
    /// fresh identifiers above `next_id`.
    pub open spec fn inv(self) -> bool {
        &&& self.root.wf()
        &&& self.root.kind is Root
        &&& self.root.distinct_ids()
        &&& self.root.contains_id(self.focused_id)
        &&& (forall|id: u64| id >= self.next_id ==> #[trigger] self.root.count_id(id) == 0)
        &&& self.next_id < 0xffff_ffff_ffff_0000
        &&& self.pending.inv()
    }

    /// A fresh state: an empty root container, focus on the root.
    pub fn new() -> (r: WmState)
        ensures
            r.inv(),
            r.binding_modes@.len() == 0,
            r.root.id == 0,
            r.root.kind is Root,
            r.root.children@.len() == 0,
            r.focused_id == 0,
            r.next_id == 1,
            !r.paused,
            r.unmanaged_or_minimized_at is None,
            r.pending.is_clear(),
    {
        let root = Container { id: 0, ratio: 0, kind: ContainerKind::Root, children: Vec::new() };
        proof {
            assert(crate::tree::wf_in(root.children@));
            assert(root.node_ok());
            assert(forall|id: u64| #[trigger] root.count_id(id) == (if id == 0 {
                1nat
            } else {
                0nat
            })) by {
                assert(forall|id: u64| crate::tree::count_id_in(root.children@, id) == 0);
            }
        }
        WmState {
            root,
            focused_id: 0,
            paused: false,
            pending: PendingSync::new(),
            unmanaged_or_minimized_at: None,
            next_id: 1,
            binding_modes: Vec::new(),
        }
    }

    /// Exactly one container carries the focused identifier: the focus
    /// path is unique. `focused_descendant` can therefore never name two
    /// different leaves.
    pub proof fn lemma_focus_unique(self)
        requires
            self.inv(),
        ensures
            self.root.count_id(self.focused_id) == 1,
    {
        assert(self.root.count_id(self.focused_id) >= 1);
        assert(self.root.count_id(self.focused_id) <= 1);
    }

    /// Whether fewer than `FOCUS_OVERRIDE_MS` milliseconds have elapsed
    /// since the last unmanage or minimize.
    pub open spec fn within_focus_override(self, now_ms: u64) -> bool {
        match self.unmanaged_or_minimized_at {
            Some(t) => now_ms >= t && now_ms - t < FOCUS_OVERRIDE_MS,
            None => false,
        }
    }

    /// Whether a fresh child of kind `kind` fits under `parent_id` at
    /// `index`: the parent exists, accepts the kind, the index is within
    /// its child list, and the list is below capacity.
    pub open spec fn can_attach(self, parent_id: u64, kind: ContainerKind, index: int) -> bool {
        match self.root.subtree(parent_id) {
            Some(p) => Container::kind_allows_child(p.kind, kind) && index <= p.children@.len()
                && p.children@.len() < 0x0100_0000,
            None => false,
        }
    }

    /// Whether the identifier budget still has room.
    pub open spec fn has_id_budget(self) -> bool {
        self.next_id < 0xffff_ffff_fffe_0000
    }

    /// What a fresh attachment leaves behind: a new leaf of the given
    /// kind under the parent at `index`.
    pub open spec fn attached_effect(
        old_s: WmState,
        new_s: WmState,
        parent_id: u64,
        kind: ContainerKind,
        index: int,
        nid: u64,
    ) -> bool {
        &&& nid == old_s.next_id
        &&& new_s.next_id == old_s.next_id + 1
        &&& (match new_s.root.subtree(nid) {
            Some(n) => n.id == nid && n.kind == kind && n.children@.len() == 0,
            None => false,
        })
        &&& (match (old_s.root.subtree(parent_id), new_s.root.subtree(parent_id)) {
            (Some(p), Some(p2)) => p2.id == p.id && p2.kind == p.kind && p2.children@.len()
                == p.children@.len() + 1 && p2.children@[index].id == nid,
            _ => false,
        })
        &&& (forall|cid: u64|
            cid != nid ==> #[trigger] new_s.root.count_id(cid) == old_s.root.count_id(cid))
        &&& new_s.root.count_id(nid) == 1
        &&& !old_s.root.contains_id(nid)
    }

    /// Appends a fresh container under `parent_id` and returns its
    /// identifier.
    fn attach_fresh(&mut self, parent_id: u64, kind: ContainerKind, index: usize) -> (r: Result<
        u64,
        WmError,
    >)
        requires
            old(self).inv(),
            !(kind is Root),
            !(kind is Split),
        ensures
            final(self).inv(),
            final(self).paused == old(self).paused,
            final(self).focused_id == old(self).focused_id,
            final(self).pending == old(self).pending,
            final(self).unmanaged_or_minimized_at == old(self).unmanaged_or_minimized_at,
            r is Ok <==> old(self).has_id_budget() && old(self).can_attach(
                parent_id,
                kind,
                index as int,
            ),
            r matches Ok(id) ==> WmState::attached_effect(
                *old(self),
                *final(self),
                parent_id,
                kind,
                index as int,
                id,
            ),
            r is Err ==> crate::tree::same_tree(final(self).root, old(self).root) && final(self).next_id == old(self).next_id,
            r == Err::<u64, WmError>(WmError::ContainerNotFound) <==> old(self).has_id_budget()
                && !old(self).root.contains_id(parent_id),
    {
        if self.next_id >= 0xffff_ffff_fffe_0000 {
            proof {
                crate::tree::lemma_same_tree_refl(self.root);
            }
            return Err(WmError::InvalidOperation);
        }
        let id = self.next_id;
        let child = Container { id, ratio: 0, kind, children: Vec::new() };
        proof {
            assert(crate::tree::wf_in(child.children@));
            assert(child.node_ok());
            assert(child.wf());
            assert(forall|cid: u64| #[trigger] child.count_id(cid) == (if cid == id {
                1nat
            } else {
                0nat
            })) by {
                assert(forall|cid: u64| crate::tree::count_id_in(child.children@, cid) == 0);
            }
            assert(forall|cid: u64|
                #[trigger] self.root.count_id(cid) + child.count_id(cid) <= 1);
        }
        match self.root.insert(parent_id, child, index) {
            Ok(()) => {
                self.next_id = self.next_id + 1;
                proof {
                    assert((*self).root.count_id(id) == 1);
                    assert forall|cid: u64| true implies #[trigger] (*self).root.count_id(cid)
                        <= 1 by {
                        assert(old(self).root.count_id(cid) + child.count_id(cid) <= 1);
                    }
                    assert forall|cid: u64| cid >= self.next_id implies #[trigger] (*self).root.count_id(
                        cid,
                    ) == 0 by {
                        assert(old(self).root.count_id(cid) == 0);
                        assert(child.count_id(cid) == 0);
                    }
                    assert(Container::inserted_effect(
                        old(self).root,
                        (*self).root,
                        parent_id,
                        child,
                        index as int,
                    ));
                    crate::ops::lemma_subtree_counts(old(self).root, parent_id);
                    assert(WmState::attached_effect(
                        *old(self),
                        *self,
                        parent_id,
                        kind,
                        index as int,
                        id,
                    )) by {
                        let p = old(self).root.subtree(parent_id).unwrap();
                        let p2 = (*self).root.subtree(parent_id).unwrap();
                        assert(p2.children@[index as int].id == p.children@.insert(
                            index as int,
                            child,
                        )[index as int].id);
                        assert(p.children@.insert(index as int, child)[index as int] == child);
                    }
                }
                Ok(id)
            },
            Err(e) => {
                proof {
                    crate::tree::lemma_same_tree_wf(self.root, old(self).root);
                    assert forall|cid: u64| true implies #[trigger] final(self).root.count_id(cid)
                        == old(self).root.count_id(cid) by {
                        crate::tree::lemma_same_tree_count(self.root, old(self).root, cid);
                    }
                }
                Err(e)
            },
        }
    }

    /// Adds a monitor at the end of the root's child list. Below the
    /// identifier budget and the child-list capacity this cannot fail.
    pub fn add_monitor(&mut self) -> (r: Result<u64, WmError>)
        requires
            old(self).inv(),
        ensures
            final(self).inv(),
            r is Ok <==> old(self).has_id_budget() && old(self).root.children@.len()
                < 0x0100_0000,
            r matches Ok(id) ==> WmState::attached_effect(
                *old(self),
                *final(self),
                old(self).root.id,
                ContainerKind::Monitor,
                old(self).root.children@.len() as int,
                id,
            ),
            r is Err ==> crate::tree::same_tree(final(self).root, old(self).root),
    {
        let n = self.root.children.len();
        proof {
            assert(old(self).root.subtree(old(self).root.id) == Some(old(self).root));
        }
        self.attach_fresh(self.root.id, ContainerKind::Monitor, n)
    }

    /// Adds a workspace under the monitor `monitor_id`, with the given
    /// tiling direction and display state. Succeeds exactly when the
    /// identifier names a monitor with room, within the id budget.
    pub fn add_workspace(
        &mut self,
        monitor_id: u64,
        direction: crate::geometry::TilingDirection,
        display_state: DisplayState,
    ) -> (r: Result<u64, WmError>)
        requires
            old(self).inv(),
        ensures
            final(self).inv(),
            r is Ok <==> old(self).has_id_budget() && old(self).can_attach(
                monitor_id,
                ContainerKind::Workspace { direction, display_state },
                0,
            ),
            r matches Ok(id) ==> WmState::attached_effect(
                *old(self),
                *final(self),
                monitor_id,
                ContainerKind::Workspace { direction, display_state },
                0,
                id,
            ),
            r == Err::<u64, WmError>(WmError::ContainerNotFound) <==> old(self).has_id_budget()
                && !old(self).root.contains_id(monitor_id),
            r is Err ==> crate::tree::same_tree(final(self).root, old(self).root),
    {
        self.attach_fresh(monitor_id, ContainerKind::Workspace { direction, display_state }, 0)
    }

    /// Brings a native window under management: attaches a window node in
    /// `Tiling` state under `parent_id` (a workspace or split container)
    /// at `index` and queues a redraw of it. The new window starts
    /// `Tiling` unless a window rule dictates otherwise, which the caller
    /// applies afterwards through the command invoker.
    pub fn manage_window(&mut self, parent_id: u64, index: usize, handle: u64) -> (r: Result<
        u64,
        WmError,
    >)
        requires
            old(self).inv(),
        ensures
            final(self).inv(),
            r is Ok <==> old(self).has_id_budget() && old(self).can_attach(
                parent_id,
                ContainerKind::Window {
                    handle,
                    tiling_state: TilingState::Tiling,
                    display_state: DisplayState::Shown,
                    active_drag: None,
                },
                index as int,
            ),
            r matches Ok(id) ==> WmState::attached_effect(
                *old(self),
                *final(self),
                parent_id,
                ContainerKind::Window {
                    handle,
                    tiling_state: TilingState::Tiling,
                    display_state: DisplayState::Shown,
                    active_drag: None,
                },
                index as int,
                id,
            ) && final(self).pending.containers_to_redraw@.to_set() == old(self).pending.containers_to_redraw@.to_set().insert(id) && final(self).pending.workspaces_to_reorder == old(self).pending.workspaces_to_reorder && final(self).pending.focus_change == old(self).pending.focus_change,
            r == Err::<u64, WmError>(WmError::ContainerNotFound) <==> old(self).has_id_budget()
                && !old(self).root.contains_id(parent_id),
            r is Err ==> crate::tree::same_tree(final(self).root, old(self).root) && final(self).pending == old(self).pending,
            final(self).paused == old(self).paused,
            final(self).focused_id == old(self).focused_id,
            final(self).unmanaged_or_minimized_at == old(self).unmanaged_or_minimized_at,
    {
        let id = match self.attach_fresh(
            parent_id,
            ContainerKind::Window {
                handle,
                tiling_state: TilingState::Tiling,
                display_state: DisplayState::Shown,
                active_drag: None,
            },
            index,
        ) {
            Ok(id) => id,
            Err(e) => {
                return Err(e);
            },
        };
        self.pending.queue_redraw(id);
        Ok(id)
    }

    /// Removes a window (or subtree) from management, records the
    /// unmanage timestamp for the focus-override window, queues a focus
    /// re-assertion and repairs the focus pointer if it pointed into the
    /// removed subtree.
    pub fn unmanage(&mut self, id: u64, now_ms: u64) -> (r: Result<(), WmError>)
        requires
            old(self).inv(),
        ensures
            final(self).inv(),
            r is Ok <==> id != old(self).root.id && old(self).root.contains_id(id),
            r is Ok ==> !final(self).root.contains_id(id) && final(self).unmanaged_or_minimized_at
                == Some(now_ms) && final(self).pending == (PendingSync {
                focus_change: true,
                ..old(self).pending
            }) && (final(self).focused_id == old(self).focused_id || final(self).focused_id == old(self).root.id) && final(self).root.contains_id(final(self).focused_id),
            r is Err ==> crate::tree::same_tree(final(self).root, old(self).root) && *final(self)
                == (WmState { root: final(self).root, ..*old(self) }),
            final(self).paused == old(self).paused,
            final(self).next_id == old(self).next_id,
    {
        if id == self.root.id {
            proof {
                crate::tree::lemma_same_tree_refl(self.root);
            }
            return Err(WmError::InvalidOperation);
        }
        match self.root.detach(id) {
            Ok(detached) => {
                proof {
                    assert forall|cid: u64| true implies #[trigger] (*self).root.count_id(cid)
                        <= old(self).root.count_id(cid) by {
                        assert((*self).root.count_id(cid) + detached.count_id(cid) <= old(self).root.count_id(cid));
                    }
                }
                self.unmanaged_or_minimized_at = Some(now_ms);
                self.pending.queue_focus_change();
                if !self.root.contains(self.focused_id) {
                    self.focused_id = self.root.id;
                    proof {
                        assert(self.root.count_id(self.root.id) >= 1);
                    }
                }
                Ok(())
            },
            Err(e) => {
                proof {
                    crate::tree::lemma_same_tree_wf(self.root, old(self).root);
                    assert forall|cid: u64| true implies #[trigger] (*self).root.count_id(cid)
                        == old(self).root.count_id(cid) by {
                        crate::tree::lemma_same_tree_count(self.root, old(self).root, cid);
                    }
                }
                Err(e)
            },
        }
    }
}


/// Handles the event for when a window starts being moved or resized by
/// the user (e.g. via its drag handles): records an `ActiveDrag` on the
/// managed window, with the operation kind left unset until a drag
/// progress event fills it in. Only that window's drag field changes:
/// structure, size ratios, focus, the pending queues and the paused flag
/// stay as they were. A no-op when the manager is paused or the window
/// is unmanaged.
pub fn handle_window_moved_or_resized_start(state: &mut WmState, native_handle: u64) -> (r: Result<
    (),
    WmError,
>)
    requires
        old(state).inv(),
    ensures
        final(state).inv(),
        r is Ok,
        old(state).paused ==> *final(state) == *old(state),
        !old(state).paused && old(state).root.find_window(native_handle) is None ==> *final(state)
            == *old(state),
        !old(state).paused ==> (old(state).root.find_window(native_handle) matches Some(info) ==> (
        final(state).paused == old(state).paused && final(state).focused_id == old(state).focused_id && final(state).pending == old(state).pending && final(state).unmanaged_or_minimized_at == old(state).unmanaged_or_minimized_at && final(state).next_id
            == old(state).next_id && crate::ops::patched_tree(
            old(state).root,
            final(state).root,
            info.id,
            WindowPatch {
                tiling_state: info.tiling_state,
                display_state: info.display_state,
                active_drag: Some(
                    ActiveDrag {
                        operation: None,
                        is_from_tiling: info.tiling_state is Tiling,
                    },
                ),
            },
        ))),
{
    if state.paused {
        return Ok(());
    }
    let found = state.root.lookup_window(native_handle);
    if let Some(info) = found {
        let patch = WindowPatch {
            tiling_state: info.tiling_state,
            display_state: info.display_state,
            active_drag: Some(
                ActiveDrag { operation: None, is_from_tiling: matches!(
                    info.tiling_state,
                    TilingState::Tiling
                ) },
            ),
        };
        proof {
            crate::ops::lemma_find_window_located(state.root, native_handle);
        }
        let hit = state.root.set_window_fields(info.id, patch);
        proof {
            assert(hit);
        }
    }
    Ok(())
}

/// Handles an OS focus event for the native window `native_handle` at
/// time `now_ms`, per the event policy: a spurious refocus within the
/// 100ms window after an unmanage or minimize is overridden by queueing
/// a focus re-assertion; a focus event towards a window the manager is
/// itself hiding is ignored entirely; otherwise the focus visuals are
/// queued, a focus event that merely confirms the manager's own target
/// queues a reorder of its workspace, and a genuine user-driven refocus
/// first activates the window's workspace if that workspace is hidden
/// (making it the monitor's one shown workspace), then moves the focus
/// pointer to the window and queues the reorder. Returns the identifier
/// of the newly focused window, if the focus pointer moved, so that the
/// driving loop can run the window rules bound to the focus lifecycle
/// event (`run_window_rules`) through the command invoker.
pub fn handle_window_focused(state: &mut WmState, native_handle: u64, now_ms: u64) -> (r: Result<
    Option<u64>,
    WmError,
>)
    requires
        old(state).inv(),
    ensures
        final(state).inv(),
        final(state).paused == old(state).paused,
        final(state).unmanaged_or_minimized_at == old(state).unmanaged_or_minimized_at,
        final(state).next_id == old(state).next_id,
        forall|cid: u64|
            #[trigger] final(state).root.count_id(cid) == old(state).root.count_id(cid),
        ({
            let found = old(state).root.find_window(native_handle);
            let focused_ws = match old(state).root.subtree(old(state).focused_id) {
                Some(n) => n.kind is Workspace,
                None => false,
            };
            let spurious = !focused_ws && (match found {
                Some(i) => i.id != old(state).focused_id,
                None => true,
            }) && old(state).within_focus_override(now_ms);
            &&& (spurious ==> r == Ok::<Option<u64>, WmError>(None) && final(state).root == old(state).root && final(state).focused_id == old(state).focused_id && final(state).pending == (
            PendingSync { focus_change: true, ..old(state).pending }))
            &&& (!spurious && found is None ==> r == Ok::<Option<u64>, WmError>(None) && final(state).root == old(state).root && final(state).focused_id == old(state).focused_id && final(state).pending == (PendingSync { focused_effect_update: true, ..old(state).pending }))
            &&& (!spurious ==> (found matches Some(i) ==> {
                let ws = old(state).root.workspace_of(i.id);
                &&& (i.display_state is Hiding ==> *final(state) == *old(state) && r == Ok::<
                    Option<u64>,
                    WmError,
                >(None))
                &&& (!(i.display_state is Hiding) && ws is None ==> r == Err::<
                    Option<u64>,
                    WmError,
                >(WmError::ContainerNotFound) && final(state).root == old(state).root && final(state).focused_id == old(state).focused_id && final(state).pending == (PendingSync {
                    focused_effect_update: true,
                    ..old(state).pending
                }))
                &&& (!(i.display_state is Hiding) ==> (ws matches Some(w) ==> {
                    let ws_hidden = match old(state).root.subtree(w) {
                        Some(n) => n.kind matches ContainerKind::Workspace {
                            display_state: DisplayState::Hidden,
                            ..
                        },
                        None => false,
                    };
                    &&& final(state).pending.containers_to_redraw == old(state).pending.containers_to_redraw
                    &&& final(state).pending.focus_change == old(state).pending.focus_change
                    &&& final(state).pending.cursor_jump == old(state).pending.cursor_jump
                    &&& final(state).pending.focused_effect_update
                    &&& final(state).pending.workspaces_to_reorder@.to_set() == old(state).pending.workspaces_to_reorder@.to_set().insert(w)
                    &&& (i.id == old(state).focused_id ==> r == Ok::<Option<u64>, WmError>(None)
                        && final(state).focused_id == old(state).focused_id && final(state).root
                        == old(state).root)
                    &&& (i.id != old(state).focused_id ==> r == Ok::<Option<u64>, WmError>(
                    Some(i.id)) && final(state).focused_id == i.id)
                    &&& (i.id != old(state).focused_id && !ws_hidden ==> final(state).root == old(state).root)
                    &&& (i.id != old(state).focused_id && ws_hidden ==> (match old(state).root.parent_of(w) {
                        Some(p) => if p.kind is Monitor {
                            // The hidden workspace was activated: it is
                            // shown, its sibling workspaces hidden.
                            match final(state).root.subtree(p.id) {
                                Some(p2) => p2.id == p.id && p2.children@.len()
                                    == p.children@.len() && (forall|j: int|
                                    0 <= j < p2.children@.len() ==> (
                                    #[trigger] p2.children@[j]).id == p.children@[j].id
                                        && p2.children@[j].kind == Container::redisplayed_kind(
                                        p.children@[j].kind,
                                        if p.children@[j].id == w {
                                            DisplayState::Shown
                                        } else {
                                            DisplayState::Hidden
                                        },
                                    )),
                                None => false,
                            }
                        } else {
                            crate::tree::same_tree(final(state).root, old(state).root)
                        },
                        None => crate::tree::same_tree(final(state).root, old(state).root),
                    }))
                }))
            }))
        }),
{
    let found = state.root.lookup_window(native_handle);
    let focused_is_workspace = match state.root.find_node(state.focused_id) {
        Some(n) => matches!(n.kind, ContainerKind::Workspace { .. }),
        None => false,
    };
    let differs = match found {
        Some(i) => i.id != state.focused_id,
        None => true,
    };
    let within = match state.unmanaged_or_minimized_at {
        Some(t) => now_ms >= t && now_ms - t < FOCUS_OVERRIDE_MS,
        None => false,
    };
    proof {
        crate::ops::lemma_subtree_counts(state.root, state.focused_id);
    }
    // A focus event right after a close or minimize is the OS picking its
    // own target: re-assert the manager's intended focus instead.
    if !focused_is_workspace && differs && within {
        state.pending.queue_focus_change();
        return Ok(None);
    }
    // Ignore the event while the manager itself is hiding the window.
    if let Some(info) = found {
        if matches!(info.display_state, DisplayState::Hiding) {
            return Ok(None);
        }
    }
    // Focus visuals are refreshed for any surviving change in focus.
    state.pending.queue_focused_effect_update();
    if let Some(info) = found {
        let ws = match state.root.lookup_workspace_of(info.id) {
            Some(ws) => ws,
            None => {
                return Err(WmError::ContainerNotFound);
            },
        };
        if info.id == state.focused_id {
            // Native focus merely confirmed the manager's own target.
            state.pending.queue_workspace_to_reorder(ws);
            return Ok(None);
        }
        // A genuine user-driven refocus. If the window sits on a hidden
        // workspace (the OS forced an off-screen window forward), bring
        // that workspace on-screen first.
        let ws_hidden = match state.root.find_node(ws) {
            Some(n) => matches!(
                n.kind,
                ContainerKind::Workspace { display_state: DisplayState::Hidden, .. }
            ),
            None => false,
        };
        proof {
            crate::ops::lemma_find_window_located(old(state).root, native_handle);
        }
        if ws_hidden {
            let activated = state.root.activate_workspace(ws);
            proof {
                if !activated {
                    crate::tree::lemma_same_tree_wf(state.root, old(state).root);
                    assert forall|cid: u64| true implies #[trigger] state.root.count_id(cid)
                        == old(state).root.count_id(cid) by {
                        crate::tree::lemma_same_tree_count(state.root, old(state).root, cid);
                    }
                }
            }
        }
        state.focused_id = info.id;
        state.pending.queue_workspace_to_reorder(ws);
        return Ok(Some(info.id));
    }
    Ok(None)
}



impl WmState {
    /// Attaches a new split container holding one new window (in
    /// `Tiling` state, spanning the split) under `parent_id` at `index`;
    /// returns the split's and the window's identifiers.
    pub fn add_split_with_window(
        &mut self,
        parent_id: u64,
        index: usize,
        direction: crate::geometry::TilingDirection,
        handle: u64,
    ) -> (r: Result<(u64, u64), WmError>)
        requires
            old(self).inv(),
        ensures
            final(self).inv(),
            r is Ok <==> old(self).next_id < 0xffff_ffff_fffe_0000 - 2 && old(self).can_attach(
                parent_id,
                ContainerKind::Split { direction },
                index as int,
            ),
            r matches Ok(ids) ==> ids.0 == old(self).next_id && ids.1 == old(self).next_id + 1
                && final(self).next_id == old(self).next_id + 2 && (match final(self).root.subtree(
                ids.0,
            ) {
                Some(n) => n.id == ids.0 && n.kind == (ContainerKind::Split { direction })
                    && n.children@.len() == 1 && n.children@[0].id == ids.1 && n.children@[0].kind
                    == (ContainerKind::Window {
                    handle,
                    tiling_state: TilingState::Tiling,
                    display_state: DisplayState::Shown,
                    active_drag: None,
                }),
                None => false,
            }) && (match (old(self).root.subtree(parent_id), final(self).root.subtree(parent_id)) {
                (Some(p), Some(p2)) => p2.id == p.id && p2.kind == p.kind && p2.children@.len()
                    == p.children@.len() + 1 && p2.children@[index as int].id == ids.0,
                _ => false,
            }),
            r is Err ==> crate::tree::same_tree(final(self).root, old(self).root),
    {
        if self.next_id >= 0xffff_ffff_fffe_0000 - 2 {
            proof {
                crate::tree::lemma_same_tree_refl(self.root);
            }
            return Err(WmError::InvalidOperation);
        }
        let sid = self.next_id;
        let wid = self.next_id + 1;
        let window = Container {
            id: wid,
            ratio: crate::tree::RATIO_UNIT,
            kind: ContainerKind::Window {
                handle,
                tiling_state: TilingState::Tiling,
                display_state: DisplayState::Shown,
                active_drag: None,
            },
            children: Vec::new(),
        };
        let mut split_children: Vec<Container> = Vec::new();
        proof {
            assert(crate::tree::wf_in(window.children@));
            assert(window.wf());
            assert(forall|cid: u64| #[trigger] window.count_id(cid) == (if cid == wid {
                1nat
            } else {
                0nat
            })) by {
                assert(forall|cid: u64| crate::tree::count_id_in(window.children@, cid) == 0);
            }
        }
        split_children.push(window);
        let split = Container {
            id: sid,
            ratio: 0,
            kind: ContainerKind::Split { direction },
            children: split_children,
        };
        proof {
            let ws = split.children@;
            assert(ws.len() == 1);
            assert(ws[0] == window);
            assert(ws.drop_first() =~= Seq::<Container>::empty());
            assert(crate::tree::wf_in(ws));
            assert(window.participates_in_tiling());
            assert(ws[0].tiling_ratio() == crate::tree::RATIO_UNIT as int);
            assert(crate::tree::ratio_sum(Seq::<Container>::empty()) == 0);
            assert(crate::tree::ratio_sum(ws.drop_first()) == 0);
            assert(crate::tree::ratio_sum(ws) == crate::tree::RATIO_UNIT as int);
            assert(split.node_ok());
            assert(crate::tree::wf_in(split.children@));
            assert(split.wf());
            assert forall|cid: u64| true implies #[trigger] split.count_id(cid) == (if cid == sid
                || cid == wid {
                1nat
            } else {
                0nat
            }) by {
                assert(crate::tree::count_id_in(ws.drop_first(), cid) == 0);
                assert(crate::tree::count_id_in(ws, cid) == window.count_id(cid));
            }
            assert(forall|cid: u64|
                #[trigger] self.root.count_id(cid) + split.count_id(cid) <= 1);
        }
        match self.root.insert(parent_id, split, index) {
            Ok(()) => {
                self.next_id = self.next_id + 2;
                proof {
                    assert forall|cid: u64| true implies #[trigger] (*self).root.count_id(cid)
                        <= 1 by {
                        assert(old(self).root.count_id(cid) + split.count_id(cid) <= 1);
                    }
                    assert forall|cid: u64| cid >= self.next_id implies #[trigger] (*self).root.count_id(
                        cid,
                    ) == 0 by {
                        assert(old(self).root.count_id(cid) == 0);
                        assert(split.count_id(cid) == 0);
                    }
                    assert(Container::inserted_effect(
                        old(self).root,
                        (*self).root,
                        parent_id,
                        split,
                        index as int,
                    ));
                    let p = old(self).root.subtree(parent_id).unwrap();
                    let p2 = (*self).root.subtree(parent_id).unwrap();
                    assert(p2.children@[index as int].id == p.children@.insert(
                        index as int,
                        split,
                    )[index as int].id);
                    assert(p.children@.insert(index as int, split)[index as int] == split);
                }
                Ok((sid, wid))
            },
            Err(e) => {
                proof {
                    crate::tree::lemma_same_tree_wf(self.root, old(self).root);
                    assert forall|cid: u64| true implies #[trigger] (*self).root.count_id(cid)
                        == old(self).root.count_id(cid) by {
                        crate::tree::lemma_same_tree_count(self.root, old(self).root, cid);
                    }
                }
                Err(e)
            },
        }
    }

    /// Records a minimize for the focus-override window.
    pub fn record_minimize(&mut self, now_ms: u64)
        requires
            old(self).inv(),
        ensures
            final(self).inv(),
            *final(self) == (WmState { unmanaged_or_minimized_at: Some(now_ms), ..*old(self) }),
    {
        self.unmanaged_or_minimized_at = Some(now_ms);
    }
}


impl WmState {
    /// The focused leaf of the subtree rooted at `id`: the globally
    /// focused container when it lies under `id`, nothing otherwise.
    /// Focus is a single pointer, so at most one leaf can ever come back.
    pub fn focused_descendant(&self, id: u64) -> (r: Option<u64>)
        ensures
            r matches Some(f) ==> f == self.focused_id && (match self.root.subtree(id) {
                Some(n) => n.contains_id(f),
                None => false,
            }),
            r is None ==> (match self.root.subtree(id) {
                Some(n) => !n.contains_id(self.focused_id),
                None => true,
            }),
    {
        match self.root.find_node(id) {
            Some(n) => {
                if n.contains(self.focused_id) {
                    Some(self.focused_id)
                } else {
                    None
                }
            },
            None => None,
        }
    }

    /// The ordered child identifiers of the container `id`.
    pub fn children_of(&self, id: u64) -> (r: Option<Vec<u64>>)
        ensures
            r matches Some(ids) ==> (match self.root.subtree(id) {
                Some(n) => ids@.len() == n.children@.len() && (forall|j: int|
                    0 <= j < ids@.len() ==> ids@[j] == (#[trigger] n.children@[j]).id),
                None => false,
            }),
            r is None ==> self.root.subtree(id) is None,
    {
        let node = match self.root.find_node(id) {
            Some(n) => n,
            None => {
                return None;
            },
        };
        let n = node.children.len();
        let mut ids: Vec<u64> = Vec::new();
        let mut i: usize = 0;
        while i < n
            invariant
                0 <= i <= n,
                n == node.children@.len(),
                ids@.len() == i,
                forall|j: int| 0 <= j < i ==> ids@[j] == (#[trigger] node.children@[j]).id,
            decreases n - i,
        {
            ids.push(node.children[i].id);
            i += 1;
        }
        Some(ids)
    }
}


impl WmState {
    /// Whether moving `id` under `new_parent` is valid: both exist, the
    /// target is a workspace or split with room that accepts the
    /// subject's kind and does not lie in the subject's own subtree, and
    /// the target is no split that the detach itself would empty.
    pub open spec fn move_allowed(self, id: u64, new_parent: u64) -> bool {
        &&& id != self.root.id
        &&& (match self.root.subtree(id) {
            Some(n) => !n.contains_id(new_parent) && (match self.root.subtree(new_parent) {
                Some(p) => Container::kind_allows_child(p.kind, n.kind) && (p.kind is Workspace
                    || p.kind is Split) && p.children@.len() < 0x0100_0000 && !(p.kind is Split
                    && p.children@.len() <= 1 && p.contains_id(id)),
                None => false,
            }),
            None => false,
        })
    }

    /// Moves the container `id` (with its subtree) under `new_parent` at
    /// `index` (clamped to the child list), recomputing the ratios of
    /// both the source and the destination sibling group. Moving a
    /// container into its own subtree, or the root, is refused as
    /// `InvalidOperation` with the tree unchanged.
    pub fn move_container(&mut self, id: u64, new_parent: u64, index: usize) -> (r: Result<
        (),
        WmError,
    >)
        requires
            old(self).inv(),
        ensures
            final(self).inv(),
            old(self).move_allowed(id, new_parent) ==> r is Ok || r == Err::<(), WmError>(
                WmError::NativeCallFailed,
            ),
            r is Ok ==> final(self).root.contains_id(id) && final(self).root.contains_id(
                new_parent,
            ) && (match final(self).root.subtree(new_parent) {
                Some(p2) => exists|j: int|
                    0 <= j < p2.children@.len() && (#[trigger] p2.children@[j]).id == id,
                None => false,
            }),
            r == Err::<(), WmError>(WmError::ContainerNotFound) ==> !old(self).root.contains_id(id)
                || !old(self).root.contains_id(new_parent),
            r is Err ==> crate::tree::same_tree(final(self).root, old(self).root) || r == Err::<
                (),
                WmError,
            >(WmError::NativeCallFailed),
    {
        proof {
            crate::tree::lemma_same_tree_refl(self.root);
        }
        if id == self.root.id {
            return Err(WmError::InvalidOperation);
        }
        // Validation before any mutation: the subject and the target must
        // exist, the target may not lie in the subject's own subtree, it
        // must accept the subject's kind, and it may not be a split that
        // the detach itself would collapse.
        let subject_kind = match self.root.find_node(id) {
            Some(n) => {
                if n.contains(new_parent) {
                    return Err(WmError::InvalidOperation);
                }
                n.kind
            },
            None => {
                proof {
                    crate::ops::lemma_subtree_counts(old(self).root, id);
                }
                return Err(WmError::ContainerNotFound);
            },
        };
        match self.root.find_node(new_parent) {
            Some(p) => {
                let compatible = match p.kind {
                    ContainerKind::Workspace { .. } | ContainerKind::Split { .. } => matches!(
                        subject_kind,
                        ContainerKind::Split { .. } | ContainerKind::Window { .. }
                    ),
                    _ => false,
                };
                if !compatible || p.children.len() >= 0x0100_0000 {
                    return Err(WmError::InvalidOperation);
                }
                if matches!(p.kind, ContainerKind::Split { .. }) && p.children.len() <= 1
                    && p.contains(id) {
                    return Err(WmError::InvalidOperation);
                }
            },
            None => {
                proof {
                    crate::ops::lemma_subtree_counts(old(self).root, new_parent);
                }
                return Err(WmError::ContainerNotFound);
            },
        }
        let detached = match self.root.detach(id) {
            Ok(d) => d,
            Err(e) => {
                proof {
                    crate::tree::lemma_same_tree_wf(self.root, old(self).root);
                    assert forall|cid: u64| true implies #[trigger] self.root.count_id(cid) == old(self).root.count_id(cid) by {
                        crate::tree::lemma_same_tree_count(self.root, old(self).root, cid);
                    }
                    if old(self).move_allowed(id, new_parent) {
                        crate::ops::lemma_subtree_counts(old(self).root, id);
                    }
                }
                return Err(e);
            },
        };
        let ghost mid = self.root;
        let arity = match self.root.find_node(new_parent) {
            Some(p) => p.children.len(),
            // Validation keeps the target alive through the detach.
            None => 0,
        };
        let at = if index < arity {
            index
        } else {
            arity
        };
        proof {
            assert forall|cid: u64| true implies #[trigger] self.root.count_id(cid)
                + detached.count_id(cid) <= 1 by {
                assert(self.root.count_id(cid) + detached.count_id(cid) <= old(self).root.count_id(cid));
            }
        }
        match self.root.insert(new_parent, detached, at) {
            Ok(()) => {
                proof {
                    assert(detached.count_id(id) >= 1);
                    crate::ops::lemma_subtree_counts(mid, new_parent);
                    assert(self.root.count_id(new_parent) >= 1);
                    assert(self.root.contains_id(id));
                    assert forall|cid: u64| true implies #[trigger] self.root.count_id(cid)
                        <= 1 by {
                        assert(self.root.count_id(cid) == mid.count_id(cid) + detached.count_id(
                            cid,
                        ));
                    }
                    assert forall|cid: u64| cid >= self.next_id implies #[trigger] self.root.count_id(
                        cid,
                    ) == 0 by {
                        assert(old(self).root.count_id(cid) == 0);
                    }
                }
                if !self.root.contains(self.focused_id) {
                    self.focused_id = self.root.id;
                    proof {
                        assert(self.root.count_id(self.root.id) >= 1);
                    }
                }
                proof {
                    let p = mid.subtree(new_parent).unwrap();
                    let p2 = self.root.subtree(new_parent).unwrap();
                    assert(p2.children@[at as int].id == p.children@.insert(
                        at as int,
                        detached,
                    )[at as int].id);
                    assert(p.children@.insert(at as int, detached)[at as int] == detached);
                }
                self.pending.queue_redraw(id);
                Ok(())
            },
            Err(_) => {
                // Validation makes this unreachable in practice; the
                // subject stays detached, reported as a failed move.
                if !self.root.contains(self.focused_id) {
                    self.focused_id = self.root.id;
                    proof {
                        assert(self.root.count_id(self.root.id) >= 1);
                    }
                }
                proof {
                    crate::tree::lemma_same_tree_wf(self.root, mid);
                    assert forall|cid: u64| true implies #[trigger] self.root.count_id(cid) <= 1
                        && (cid >= self.next_id ==> self.root.count_id(cid) == 0) by {
                        crate::tree::lemma_same_tree_count(self.root, mid, cid);
                        assert(mid.count_id(cid) <= old(self).root.count_id(cid));
                        if cid >= self.next_id {
                            assert(old(self).root.count_id(cid) == 0);
                        }
                    }
                }
                Err(WmError::NativeCallFailed)
            },
        }
    }
}

} // verus!
