use tilewm::commands::{
    invoke_command, InvokeCommand, InvokeFocusCommand, InvokeResizeCommand, LengthUnit,
    LengthValue, SubscribableEvent,
};
use tilewm::geometry::{Direction, Rect, TilingDirection};
use tilewm::layout::compute_layout;
use tilewm::state::{handle_window_focused, handle_window_moved_or_resized_start, WmState};
use tilewm::subscribe::{watcher_step, SubscriptionRegistry, WatcherAction, WatcherEvent};
use tilewm::tree::{ActiveDrag, Container, ContainerKind, TilingState, RATIO_UNIT};
use tilewm::WmError;

fn viewport() -> Rect {
    Rect { x: 0, y: 0, width: 1000, height: 800 }
}

/// A state with one monitor, one workspace and two tiling windows.
fn two_window_state() -> (WmState, u64, u64, u64) {
    let mut state = WmState::new();
    let monitor = state.add_monitor().unwrap();
    let ws = state
        .add_workspace(monitor, TilingDirection::Horizontal, tilewm::tree::DisplayState::Shown)
        .unwrap();
    let w1 = state.manage_window(ws, 0, 101).unwrap();
    let w2 = state.manage_window(ws, 1, 102).unwrap();
    (state, ws, w1, w2)
}

fn ratio_of(state: &WmState, id: u64) -> u32 {
    state.root.find_node(id).unwrap().ratio
}

fn rect_of(entries: &[tilewm::layout::LayoutEntry], id: u64) -> Rect {
    entries.iter().find(|e| e.id == id).unwrap().rect
}

#[test]
fn ratios_sum_to_unit_after_every_operation() {
    let (mut state, ws, w1, w2) = two_window_state();
    assert_eq!(ratio_of(&state, w1) + ratio_of(&state, w2), RATIO_UNIT);

    let w3 = state.manage_window(ws, 2, 103).unwrap();
    assert_eq!(
        ratio_of(&state, w1) + ratio_of(&state, w2) + ratio_of(&state, w3),
        RATIO_UNIT
    );

    state.unmanage(w2, 0).unwrap();
    assert_eq!(ratio_of(&state, w1) + ratio_of(&state, w3), RATIO_UNIT);

    assert!(state.root.resize_ratio(w1, 2500));
    assert_eq!(ratio_of(&state, w1), 2500);
    assert_eq!(ratio_of(&state, w1) + ratio_of(&state, w3), RATIO_UNIT);
}

#[test]
fn ratios_sum_with_uneven_split_counts() {
    let mut state = WmState::new();
    let monitor = state.add_monitor().unwrap();
    let ws = state
        .add_workspace(monitor, TilingDirection::Horizontal, tilewm::tree::DisplayState::Shown)
        .unwrap();
    let mut ids = Vec::new();
    for k in 0..3 {
        ids.push(state.manage_window(ws, k, 200 + k as u64).unwrap());
    }
    let total: u32 = ids.iter().map(|id| ratio_of(&state, *id)).sum();
    assert_eq!(total, RATIO_UNIT);
}

#[test]
fn focus_pointer_resolves_to_one_container() {
    let (mut state, _ws, w1, _w2) = two_window_state();
    let moved = handle_window_focused(&mut state, 101, 0).unwrap();
    assert_eq!(moved, Some(w1));
    assert_eq!(state.focused_id, w1);
    // The focus pointer is a single identifier, unique in the tree.
    assert!(state.root.find_node(state.focused_id).is_some());
}

#[test]
fn layout_is_idempotent() {
    let (state, _ws, _w1, _w2) = two_window_state();
    let vps = vec![viewport()];
    let a = compute_layout(&state.root, &vps, 0);
    let b = compute_layout(&state.root, &vps, 0);
    assert_eq!(a, b);
    let c = compute_layout(&state.root, &vps, 8);
    let d = compute_layout(&state.root, &vps, 8);
    assert_eq!(c, d);
}

#[test]
fn detach_collapses_emptied_split_and_rehomes_ratio() {
    let mut state = WmState::new();
    let monitor = state.add_monitor().unwrap();
    let ws = state
        .add_workspace(monitor, TilingDirection::Horizontal, tilewm::tree::DisplayState::Shown)
        .unwrap();
    let w1 = state.manage_window(ws, 0, 301).unwrap();
    let (split, w3) = state
        .add_split_with_window(ws, 1, TilingDirection::Vertical, 303)
        .unwrap();
    assert!(state.root.find_node(split).is_some());

    state.unmanage(w3, 0).unwrap();
    // The emptied split container is gone, and the remaining sibling
    // spans the whole workspace again.
    assert!(state.root.find_node(split).is_none());
    assert_eq!(ratio_of(&state, w1), RATIO_UNIT);
}

#[test]
fn two_windows_split_the_viewport_and_resize_recomputes() {
    let (mut state, _ws, w1, w2) = two_window_state();
    assert_eq!(ratio_of(&state, w1), 5000);
    assert_eq!(ratio_of(&state, w2), 5000);

    let vps = vec![viewport()];
    let entries = compute_layout(&state.root, &vps, 0);
    assert_eq!(rect_of(&entries, w1), Rect { x: 0, y: 0, width: 500, height: 800 });
    assert_eq!(rect_of(&entries, w2), Rect { x: 500, y: 0, width: 500, height: 800 });

    // Resize the first window to 30% of the parent's width.
    let resize = InvokeCommand::Resize(InvokeResizeCommand {
        width: Some(LengthValue { amount: 30, unit: LengthUnit::Percent }),
        height: None,
    });
    invoke_command(&mut state, Some(w1), &resize, 0).unwrap();
    assert_eq!(ratio_of(&state, w1), 3000);
    assert_eq!(ratio_of(&state, w2), 7000);

    let entries = compute_layout(&state.root, &vps, 0);
    assert_eq!(rect_of(&entries, w1), Rect { x: 0, y: 0, width: 300, height: 800 });
    assert_eq!(rect_of(&entries, w2), Rect { x: 300, y: 0, width: 700, height: 800 });
}

#[test]
fn gaps_shrink_window_rects() {
    let (state, _ws, w1, w2) = two_window_state();
    let vps = vec![viewport()];
    let entries = compute_layout(&state.root, &vps, 10);
    assert_eq!(rect_of(&entries, w1), Rect { x: 10, y: 10, width: 480, height: 780 });
    assert_eq!(rect_of(&entries, w2), Rect { x: 510, y: 10, width: 480, height: 780 });
}

#[test]
fn spurious_focus_after_minimize_is_overridden() {
    let (mut state, _ws, w1, w2) = two_window_state();
    handle_window_focused(&mut state, 101, 0).unwrap();
    assert_eq!(state.focused_id, w1);

    // Minimize the other window at t = 1000ms.
    invoke_command(&mut state, Some(w2), &InvokeCommand::SetMinimized, 1000).unwrap();
    assert_eq!(state.unmanaged_or_minimized_at, Some(1000));
    let before = compute_layout(&state.root, &vec![viewport()], 0);
    state.pending.flush();

    // An OS focus event towards the minimized window 50ms later, while
    // the manager intends w1 to stay focused, is spurious.
    let moved = handle_window_focused(&mut state, 102, 1050).unwrap();
    assert_eq!(moved, None);
    assert_eq!(state.focused_id, w1);
    let plan = state.pending.flush();
    assert!(plan.reassert_focus);
    // No tree mutation happened.
    let after = compute_layout(&state.root, &vec![viewport()], 0);
    assert_eq!(before, after);
}

#[test]
fn focus_event_after_override_window_moves_focus() {
    let (mut state, _ws, w1, w2) = two_window_state();
    handle_window_focused(&mut state, 101, 0).unwrap();
    invoke_command(&mut state, Some(w2), &InvokeCommand::SetTiling, 1000).unwrap();
    // 200ms later the override window has passed: a genuine refocus.
    state.record_minimize(1000);
    let moved = handle_window_focused(&mut state, 102, 1200).unwrap();
    assert_eq!(moved, Some(w2));
    assert_eq!(state.focused_id, w2);
    assert_eq!(state.root.find_node(w1).unwrap().id, w1);
}

#[test]
fn subscription_delivers_tagged_events_until_unsubscribed() {
    let mut registry = SubscriptionRegistry::new();
    let sub_id: u128 = 0x1234_5678_9abc_def0_1122_3344_5566_7788;
    let events = vec![SubscribableEvent::WindowManaged, SubscribableEvent::WindowUnmanaged];
    // `subscribe -e window_managed window_unmanaged` returns the id.
    assert_eq!(registry.subscribe(sub_id, &events), Some(sub_id));

    // A window_managed event is delivered tagged with that id.
    let receivers = registry.receivers(SubscribableEvent::WindowManaged);
    assert_eq!(receivers, vec![sub_id]);
    // An event outside the subscribed set is not delivered.
    assert!(registry.receivers(SubscribableEvent::PauseChanged).is_empty());

    // `unsub --id <id>` terminates the stream: the registry forgets the
    // subscription, so the stream ends with a sentinel, not an error.
    assert!(registry.unsubscribe(sub_id));
    assert!(registry.receivers(SubscribableEvent::WindowManaged).is_empty());
    assert!(!registry.has(sub_id));
    // Unsubscribing again reports that no stream existed.
    assert!(!registry.unsubscribe(sub_id));
}

#[test]
fn subscribe_all_receives_everything() {
    let mut registry = SubscriptionRegistry::new();
    assert_eq!(registry.subscribe(7, &vec![SubscribableEvent::All]), Some(7));
    assert_eq!(registry.receivers(SubscribableEvent::FocusChanged), vec![7]);
    assert_eq!(registry.receivers(SubscribableEvent::WorkspaceActivated), vec![7]);
}

#[test]
fn command_with_unknown_subject_is_container_not_found() {
    let (mut state, _ws, _w1, _w2) = two_window_state();
    let before = compute_layout(&state.root, &vec![viewport()], 0);
    let focused_before = state.focused_id;

    let cmd = InvokeCommand::Focus(InvokeFocusCommand {
        direction: Some(Direction::Left),
        workspace: None,
        monitor: None,
        next_active_workspace: false,
        prev_active_workspace: false,
        next_workspace: false,
        prev_workspace: false,
        recent_workspace: false,
    });
    let missing: u64 = 0xdead_beef;
    let r = invoke_command(&mut state, Some(missing), &cmd, 0);
    assert_eq!(r, Err(WmError::ContainerNotFound));

    // The tree is unchanged.
    let after = compute_layout(&state.root, &vec![viewport()], 0);
    assert_eq!(before, after);
    assert_eq!(state.focused_id, focused_before);
}

#[test]
fn focus_command_requires_exactly_one_target() {
    let (mut state, _ws, w1, _w2) = two_window_state();
    let cmd = InvokeCommand::Focus(InvokeFocusCommand {
        direction: Some(Direction::Left),
        workspace: None,
        monitor: None,
        next_active_workspace: false,
        prev_active_workspace: false,
        next_workspace: true,
        prev_workspace: false,
        recent_workspace: false,
    });
    assert_eq!(
        invoke_command(&mut state, Some(w1), &cmd, 0),
        Err(WmError::InvalidCommandArguments)
    );
}

#[test]
fn resize_requires_an_extent() {
    let (mut state, _ws, w1, _w2) = two_window_state();
    let cmd = InvokeCommand::Resize(InvokeResizeCommand { width: None, height: None });
    assert_eq!(
        invoke_command(&mut state, Some(w1), &cmd, 0),
        Err(WmError::InvalidCommandArguments)
    );
}

#[test]
fn drag_start_records_active_drag() {
    let (mut state, _ws, w1, _w2) = two_window_state();
    handle_window_moved_or_resized_start(&mut state, 101).unwrap();
    let node = state.root.find_node(w1).unwrap();
    match node.kind {
        ContainerKind::Window { active_drag, .. } => {
            assert_eq!(
                active_drag,
                Some(ActiveDrag { operation: None, is_from_tiling: true })
            );
        }
        _ => panic!("expected a window"),
    }
}

#[test]
fn drag_start_is_a_no_op_when_paused() {
    let (mut state, _ws, w1, _w2) = two_window_state();
    invoke_command(&mut state, None, &InvokeCommand::WmTogglePause, 0).unwrap();
    assert!(state.paused);
    handle_window_moved_or_resized_start(&mut state, 101).unwrap();
    let node = state.root.find_node(w1).unwrap();
    match node.kind {
        ContainerKind::Window { active_drag, .. } => assert_eq!(active_drag, None),
        _ => panic!("expected a window"),
    }
}

#[test]
fn minimized_windows_leave_the_layout() {
    let (mut state, _ws, w1, w2) = two_window_state();
    invoke_command(&mut state, Some(w2), &InvokeCommand::SetMinimized, 0).unwrap();
    let entries = compute_layout(&state.root, &vec![viewport()], 0);
    assert_eq!(rect_of(&entries, w1), Rect { x: 0, y: 0, width: 1000, height: 800 });
    assert!(entries.iter().all(|e| e.id != w2));
    match state.root.find_node(w2).unwrap().kind {
        ContainerKind::Window { tiling_state, .. } => {
            assert_eq!(tiling_state, TilingState::Minimized)
        }
        _ => panic!("expected a window"),
    }
}

#[test]
fn flush_batches_and_clears() {
    let (mut state, ws, w1, _w2) = two_window_state();
    state.pending.flush();
    state.pending.queue_redraw(w1);
    state.pending.queue_redraw(w1);
    state.pending.queue_workspace_to_reorder(ws);
    state.pending.queue_focused_effect_update();
    let plan = state.pending.flush();
    assert_eq!(plan.redraws, vec![w1]);
    assert_eq!(plan.reorders, vec![ws]);
    assert!(plan.apply_focused_effect);
    assert!(!plan.reassert_focus);
    let empty = state.pending.flush();
    assert!(empty.redraws.is_empty());
    assert!(empty.reorders.is_empty());
    assert!(!empty.apply_focused_effect);
}

#[test]
fn watcher_tracks_and_stops() {
    assert_eq!(
        watcher_step(WatcherEvent::Managed { handle: 42 }),
        WatcherAction::Track { handle: 42 }
    );
    assert_eq!(
        watcher_step(WatcherEvent::Unmanaged { handle: 42 }),
        WatcherAction::Untrack { handle: 42 }
    );
    assert_eq!(watcher_step(WatcherEvent::Ended), WatcherAction::CleanupAndStop);
}

#[test]
fn insert_into_missing_parent_fails_without_change() {
    let mut state = WmState::new();
    let before_children = state.root.children.len();
    let r = state.manage_window(4242, 0, 1);
    assert_eq!(r, Err(WmError::ContainerNotFound));
    assert_eq!(state.root.children.len(), before_children);
}

#[test]
fn lookups_resolve_windows_and_workspaces() {
    let (state, ws, w1, _w2) = two_window_state();
    // Workspace lookup walks the tree upward from the window.
    assert_eq!(state.root.lookup_workspace_of(w1), Some(ws));
    assert_eq!(state.root.lookup_window(101).map(|i| i.id), Some(w1));
    assert_eq!(state.root.lookup_window(999), None);
    let _ = Container {
        id: 0,
        ratio: 0,
        kind: ContainerKind::Root,
        children: Vec::new(),
    };
}

#[test]
fn move_rehomes_a_window_between_workspaces() {
    let mut state = WmState::new();
    let monitor = state.add_monitor().unwrap();
    let ws1 = state
        .add_workspace(monitor, TilingDirection::Horizontal, tilewm::tree::DisplayState::Shown)
        .unwrap();
    let ws2 = state
        .add_workspace(monitor, TilingDirection::Horizontal, tilewm::tree::DisplayState::Hidden)
        .unwrap();
    let w1 = state.manage_window(ws1, 0, 501).unwrap();
    let w2 = state.manage_window(ws1, 1, 502).unwrap();

    state.move_container(w2, ws2, 0).unwrap();
    assert_eq!(state.root.lookup_workspace_of(w2), Some(ws2));
    // Ratios are recomputed in both the source and destination group.
    assert_eq!(ratio_of(&state, w1), RATIO_UNIT);
    assert_eq!(ratio_of(&state, w2), RATIO_UNIT);
}

#[test]
fn move_into_own_subtree_is_invalid_and_changes_nothing() {
    let mut state = WmState::new();
    let monitor = state.add_monitor().unwrap();
    let ws = state
        .add_workspace(monitor, TilingDirection::Horizontal, tilewm::tree::DisplayState::Shown)
        .unwrap();
    let (split, w3) = state
        .add_split_with_window(ws, 0, TilingDirection::Vertical, 601)
        .unwrap();
    let before = compute_layout(&state.root, &vec![viewport()], 0);
    assert_eq!(
        state.move_container(split, split, 0),
        Err(WmError::InvalidOperation)
    );
    assert_eq!(
        state.move_container(ws, split, 0),
        Err(WmError::InvalidOperation)
    );
    let after = compute_layout(&state.root, &vec![viewport()], 0);
    assert_eq!(before, after);
    assert_eq!(state.root.lookup_workspace_of(w3), Some(ws));
}

#[test]
fn toggling_tiling_direction_flips_the_layout_axis() {
    let (mut state, ws, w1, w2) = two_window_state();
    invoke_command(&mut state, Some(ws), &InvokeCommand::ToggleTilingDirection, 0).unwrap();
    let entries = compute_layout(&state.root, &vec![viewport()], 0);
    assert_eq!(rect_of(&entries, w1), Rect { x: 0, y: 0, width: 1000, height: 400 });
    assert_eq!(rect_of(&entries, w2), Rect { x: 0, y: 400, width: 1000, height: 400 });
    invoke_command(
        &mut state,
        Some(ws),
        &InvokeCommand::SetTilingDirection { tiling_direction: TilingDirection::Horizontal },
        0,
    )
    .unwrap();
    let entries = compute_layout(&state.root, &vec![viewport()], 0);
    assert_eq!(rect_of(&entries, w1), Rect { x: 0, y: 0, width: 500, height: 800 });
}

#[test]
fn move_command_rehomes_to_a_workspace() {
    let mut state = WmState::new();
    let monitor = state.add_monitor().unwrap();
    let ws1 = state
        .add_workspace(monitor, TilingDirection::Horizontal, tilewm::tree::DisplayState::Shown)
        .unwrap();
    let ws2 = state
        .add_workspace(monitor, TilingDirection::Horizontal, tilewm::tree::DisplayState::Hidden)
        .unwrap();
    let w1 = state.manage_window(ws1, 0, 701).unwrap();
    let _w2 = state.manage_window(ws1, 1, 702).unwrap();
    let cmd = InvokeCommand::Move(tilewm::commands::InvokeMoveCommand {
        direction: None,
        workspace: Some(ws2),
        next_active_workspace: false,
        prev_active_workspace: false,
        next_workspace: false,
        prev_workspace: false,
        recent_workspace: false,
    });
    invoke_command(&mut state, Some(w1), &cmd, 0).unwrap();
    assert_eq!(state.root.lookup_workspace_of(w1), Some(ws2));
    assert_eq!(ratio_of(&state, w1), RATIO_UNIT);
}

#[test]
fn focus_command_targets_a_workspace() {
    let (mut state, ws, _w1, _w2) = two_window_state();
    let cmd = InvokeCommand::Focus(InvokeFocusCommand {
        direction: None,
        workspace: Some(ws),
        monitor: None,
        next_active_workspace: false,
        prev_active_workspace: false,
        next_workspace: false,
        prev_workspace: false,
        recent_workspace: false,
    });
    invoke_command(&mut state, None, &cmd, 0).unwrap();
    assert_eq!(state.focused_id, ws);
    let plan = state.pending.flush();
    assert!(plan.reassert_focus);
    assert!(plan.apply_focused_effect);
}

#[test]
fn drag_start_preserves_size_ratios() {
    let (mut state, _ws, w1, w2) = two_window_state();
    assert!(state.root.resize_ratio(w1, 3000));
    assert_eq!(ratio_of(&state, w1), 3000);
    assert_eq!(ratio_of(&state, w2), 7000);
    // Starting a drag records the ActiveDrag and touches nothing else.
    handle_window_moved_or_resized_start(&mut state, 101).unwrap();
    assert_eq!(ratio_of(&state, w1), 3000);
    assert_eq!(ratio_of(&state, w2), 7000);
}

#[test]
fn textual_commands_parse_to_typed_commands() {
    let words = |s: &str| s.split_whitespace().map(str::to_string).collect::<Vec<_>>();
    assert_eq!(
        tilewm::parse::parse_invoke_tokens(&words("close")),
        Some(InvokeCommand::Close)
    );
    assert_eq!(
        tilewm::parse::parse_invoke_tokens(&words("wm-toggle-pause")),
        Some(InvokeCommand::WmTogglePause)
    );
    assert_eq!(
        tilewm::parse::parse_invoke_tokens(&words("toggle-tiling-direction")),
        Some(InvokeCommand::ToggleTilingDirection)
    );
    assert_eq!(tilewm::parse::parse_invoke_tokens(&words("no-such-command")), None);
    assert_eq!(tilewm::parse::parse_invoke_tokens(&Vec::new()), None);
}

#[test]
fn focusing_a_window_on_a_hidden_workspace_activates_it() {
    let mut state = WmState::new();
    let monitor = state.add_monitor().unwrap();
    let ws1 = state
        .add_workspace(monitor, TilingDirection::Horizontal, tilewm::tree::DisplayState::Shown)
        .unwrap();
    let ws2 = state
        .add_workspace(monitor, TilingDirection::Horizontal, tilewm::tree::DisplayState::Hidden)
        .unwrap();
    let w1 = state.manage_window(ws1, 0, 801).unwrap();
    let w2 = state.manage_window(ws2, 0, 802).unwrap();
    handle_window_focused(&mut state, 801, 0).unwrap();
    assert_eq!(state.focused_id, w1);

    // The OS forces the off-screen window forward: its hidden workspace
    // is activated — shown, with its sibling workspace hidden.
    let moved = handle_window_focused(&mut state, 802, 0).unwrap();
    assert_eq!(moved, Some(w2));
    assert_eq!(state.focused_id, w2);
    match state.root.find_node(ws2).unwrap().kind {
        ContainerKind::Workspace { display_state, .. } => {
            assert_eq!(display_state, tilewm::tree::DisplayState::Shown)
        }
        _ => panic!("expected a workspace"),
    }
    match state.root.find_node(ws1).unwrap().kind {
        ContainerKind::Workspace { display_state, .. } => {
            assert_eq!(display_state, tilewm::tree::DisplayState::Hidden)
        }
        _ => panic!("expected a workspace"),
    }
}

#[test]
fn flagged_textual_commands_parse() {
    let words = |s: &str| s.split_whitespace().map(str::to_string).collect::<Vec<_>>();
    assert_eq!(
        tilewm::parse::parse_invoke_tokens(&words("resize --width 30%")),
        Some(InvokeCommand::Resize(InvokeResizeCommand {
            width: Some(LengthValue { amount: 30, unit: LengthUnit::Percent }),
            height: None,
        }))
    );
    assert_eq!(
        tilewm::parse::parse_invoke_tokens(&words("resize --width 200 --height 50%")),
        Some(InvokeCommand::Resize(InvokeResizeCommand {
            width: Some(LengthValue { amount: 200, unit: LengthUnit::Pixels }),
            height: Some(LengthValue { amount: 50, unit: LengthUnit::Percent }),
        }))
    );
    match tilewm::parse::parse_invoke_tokens(&words("focus --direction left")) {
        Some(InvokeCommand::Focus(a)) => assert_eq!(a.direction, Some(Direction::Left)),
        other => panic!("unexpected parse: {:?}", other),
    }
    match tilewm::parse::parse_invoke_tokens(&words("move --workspace 7")) {
        Some(InvokeCommand::Move(a)) => assert_eq!(a.workspace, Some(7)),
        other => panic!("unexpected parse: {:?}", other),
    }
    assert_eq!(tilewm::parse::parse_invoke_tokens(&words("resize --width abc")), None);
}

#[test]
fn parsed_resize_reaches_the_tree() {
    let (mut state, _ws, w1, w2) = two_window_state();
    let words: Vec<String> = "resize --width 30%".split_whitespace().map(str::to_string).collect();
    let cmd = tilewm::parse::parse_invoke_tokens(&words).unwrap();
    invoke_command(&mut state, Some(w1), &cmd, 0).unwrap();
    assert_eq!(ratio_of(&state, w1), 3000);
    assert_eq!(ratio_of(&state, w2), 7000);
}

#[test]
fn directional_focus_steps_to_the_sibling() {
    let (mut state, _ws, w1, w2) = two_window_state();
    handle_window_focused(&mut state, 102, 0).unwrap();
    assert_eq!(state.focused_id, w2);
    let words: Vec<String> = "focus --direction left".split_whitespace().map(str::to_string).collect();
    let cmd = tilewm::parse::parse_invoke_tokens(&words).unwrap();
    invoke_command(&mut state, None, &cmd, 0).unwrap();
    assert_eq!(state.focused_id, w1);
    // At the left edge the focus pointer stays put.
    invoke_command(&mut state, None, &cmd, 0).unwrap();
    assert_eq!(state.focused_id, w1);
}

#[test]
fn binding_modes_are_enabled_and_disabled() {
    let mut state = WmState::new();
    let enable = InvokeCommand::WmEnableBindingMode { name: "resize".to_string() };
    let enable2 = InvokeCommand::WmEnableBindingMode { name: "launch".to_string() };
    invoke_command(&mut state, None, &enable, 0).unwrap();
    invoke_command(&mut state, None, &enable2, 0).unwrap();
    assert_eq!(state.binding_modes, vec!["resize".to_string(), "launch".to_string()]);
    let disable = InvokeCommand::WmDisableBindingMode { name: "resize".to_string() };
    invoke_command(&mut state, None, &disable, 0).unwrap();
    assert_eq!(state.binding_modes, vec!["launch".to_string()]);
}

#[test]
fn focus_rules_run_through_the_invoker() {
    let (mut state, _ws, w1, _w2) = two_window_state();
    let rules = vec![
        tilewm::rules::WindowRule {
            event: tilewm::rules::RuleEvent::Focus,
            action: InvokeCommand::SetFloating {
                shown_on_top: None,
                centered: None,
                x_pos: None,
                y_pos: None,
                width: None,
                height: None,
            },
        },
        tilewm::rules::WindowRule {
            event: tilewm::rules::RuleEvent::Manage,
            action: InvokeCommand::Close,
        },
    ];
    let suppressed =
        tilewm::rules::run_window_rules(&mut state, w1, &rules, tilewm::rules::RuleEvent::Focus, 0);
    assert!(!suppressed);
    match state.root.find_node(w1).unwrap().kind {
        ContainerKind::Window { tiling_state, .. } => {
            assert_eq!(tiling_state, TilingState::Floating)
        }
        _ => panic!("expected a window"),
    }
    // The manage-bound rule did not run: the window is still managed.
    assert!(state.root.find_node(w1).is_some());

    let ignore_rules = vec![tilewm::rules::WindowRule {
        event: tilewm::rules::RuleEvent::Manage,
        action: InvokeCommand::Ignore,
    }];
    assert!(tilewm::rules::run_window_rules(
        &mut state,
        w1,
        &ignore_rules,
        tilewm::rules::RuleEvent::Manage,
        0
    ));
}
