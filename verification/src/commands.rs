//! The command surface: the typed commands a user or IPC client can
//! issue, their argument-group validation, and the invoker that resolves
//! a subject container and applies a command to the state.
//!
//! Validation happens at the command boundary, before any mutation:
//! a command either applies fully or leaves the state unchanged.

use vstd::prelude::*;

use crate::geometry::{Direction, TilingDirection};
use crate::ops::WindowPatch;
use crate::pending::PendingSync;
use crate::state::WmState;
use crate::tree::{Container, ContainerKind, TilingState, RATIO_UNIT};
use crate::WmError;

verus! {

/// A pixel or percentage length, as an integer amount.
#[derive(Clone, Copy, Debug, PartialEq, Eq, Structural)]
pub enum LengthUnit {
    Pixels,
    Percent,
}

/// An integer length with its unit.
#[derive(Clone, Copy, Debug, PartialEq, Eq, Structural)]
pub struct LengthValue {
    pub amount: i32,
    pub unit: LengthUnit,
}

/// An opacity, in whole percent, absolute or as a delta.
#[derive(Clone, Copy, Debug, PartialEq, Eq, Structural)]
pub struct OpacityValue {
    pub percent: i32,
    pub is_delta: bool,
}

/// Verbosity flags of the command line.
#[derive(Clone, Copy, Debug, PartialEq, Eq, Structural)]
pub struct Verbosity {
    pub verbose: bool,
    pub quiet: bool,
}

/// A state-snapshot query.
#[derive(Clone, Copy, Debug, PartialEq, Eq, Structural)]
pub enum QueryCommand {
    AppMetadata,
    BindingModes,
    Focused,
    TilingDirection,
    Monitors,
    Windows,
    Workspaces,
    Paused,
}

/// The event kinds an IPC client can subscribe to.
#[derive(Clone, Copy, Debug, PartialEq, Eq, Structural)]
pub enum SubscribableEvent {
    All,
    ApplicationExiting,
    BindingModesChanged,
    FocusChanged,
    FocusedContainerMoved,
    MonitorAdded,
    MonitorUpdated,
    MonitorRemoved,
    TilingDirectionChanged,
    UserConfigChanged,
    WindowManaged,
    WindowUnmanaged,
    WorkspaceActivated,
    WorkspaceDeactivated,
    WorkspaceUpdated,
    PauseChanged,
}

/// Title bar visibility choices.
#[derive(Clone, Copy, Debug, PartialEq, Eq, Structural)]
pub enum TitleBarVisibility {
    Shown,
    Hidden,
}

/// Border delta arguments; at least one side is required.
#[derive(Clone, Copy, Debug, PartialEq, Eq, Structural)]
pub struct InvokeAdjustBordersCommand {
    pub top: Option<LengthValue>,
    pub right: Option<LengthValue>,
    pub bottom: Option<LengthValue>,
    pub left: Option<LengthValue>,
}

/// Focus target arguments; exactly one is required.
#[derive(Clone, Debug, PartialEq, Eq, Structural)]
pub struct InvokeFocusCommand {
    pub direction: Option<Direction>,
    pub workspace: Option<u64>,
    pub monitor: Option<usize>,
    pub next_active_workspace: bool,
    pub prev_active_workspace: bool,
    pub next_workspace: bool,
    pub prev_workspace: bool,
    pub recent_workspace: bool,
}

/// Move target arguments; exactly one is required.
#[derive(Clone, Debug, PartialEq, Eq, Structural)]
pub struct InvokeMoveCommand {
    pub direction: Option<Direction>,
    pub workspace: Option<u64>,
    pub next_active_workspace: bool,
    pub prev_active_workspace: bool,
    pub next_workspace: bool,
    pub prev_workspace: bool,
    pub recent_workspace: bool,
}

/// Resize arguments; at least one extent is required.
#[derive(Clone, Copy, Debug, PartialEq, Eq, Structural)]
pub struct InvokeResizeCommand {
    pub width: Option<LengthValue>,
    pub height: Option<LengthValue>,
}

/// Position arguments; centering or at least one coordinate.
#[derive(Clone, Copy, Debug, PartialEq, Eq, Structural)]
pub struct InvokePositionCommand {
    pub centered: bool,
    pub x_pos: Option<i32>,
    pub y_pos: Option<i32>,
}

/// A window manager command, as issued by the user or over IPC.
#[derive(Clone, Debug, PartialEq, Eq)]
pub enum InvokeCommand {
    AdjustBorders(InvokeAdjustBordersCommand),
    Close,
    Focus(InvokeFocusCommand),
    Ignore,
    Move(InvokeMoveCommand),
    MoveWorkspace { direction: Direction },
    Position(InvokePositionCommand),
    Resize(InvokeResizeCommand),
    SetFloating { shown_on_top: Option<bool>, centered: Option<bool>, x_pos: Option<i32>, y_pos: Option<i32>, width: Option<LengthValue>, height: Option<LengthValue> },
    SetFullscreen { shown_on_top: Option<bool>, maximized: Option<bool> },
    SetMinimized,
    SetTiling,
    SetTitleBarVisibility { visibility: TitleBarVisibility },
    SetOpacity { opacity: OpacityValue },
    ShellExec { hide_window: bool, command: Vec<String> },
    Size(InvokeResizeCommand),
    ToggleFloating { shown_on_top: Option<bool>, centered: Option<bool> },
    ToggleFullscreen { shown_on_top: Option<bool>, maximized: Option<bool> },
    ToggleMinimized,
    ToggleTiling,
    ToggleTilingDirection,
    SetTilingDirection { tiling_direction: TilingDirection },
    WmCycleFocus { omit_fullscreen: bool, omit_minimized: bool },
    WmDisableBindingMode { name: String },
    WmEnableBindingMode { name: String },
    WmExit,
    WmRedraw,
    WmReloadConfig,
    WmTogglePause,
}

impl InvokeFocusCommand {
    /// Exactly one focus target may be given.
    pub open spec fn spec_target_count(self) -> int {
        (if self.direction is Some { 1int } else { 0int }) + (if self.workspace is Some { 1int } else { 0int })
            + (if self.monitor is Some { 1int } else { 0int }) + (if self.next_active_workspace { 1int } else { 0int })
            + (if self.prev_active_workspace { 1int } else { 0int }) + (if self.next_workspace { 1int } else { 0int })
            + (if self.prev_workspace { 1int } else { 0int }) + (if self.recent_workspace { 1int } else { 0int })
    }

    /// Validates the mutually-exclusive, required target group.
    pub fn validate(&self) -> (r: bool)
        ensures
            r == (self.spec_target_count() == 1),
    {
        let mut count: u32 = 0;
        if self.direction.is_some() { count += 1; }
        if self.workspace.is_some() { count += 1; }
        if self.monitor.is_some() { count += 1; }
        if self.next_active_workspace { count += 1; }
        if self.prev_active_workspace { count += 1; }
        if self.next_workspace { count += 1; }
        if self.prev_workspace { count += 1; }
        if self.recent_workspace { count += 1; }
        count == 1
    }
}

impl InvokeMoveCommand {
    /// Exactly one move target may be given.
    pub open spec fn spec_target_count(self) -> int {
        (if self.direction is Some { 1int } else { 0int }) + (if self.workspace is Some { 1int } else { 0int })
            + (if self.next_active_workspace { 1int } else { 0int })
            + (if self.prev_active_workspace { 1int } else { 0int })
            + (if self.next_workspace { 1int } else { 0int })
            + (if self.prev_workspace { 1int } else { 0int })
            + (if self.recent_workspace { 1int } else { 0int })
    }

    /// Validates the mutually-exclusive, required target group.
    pub fn validate(&self) -> (r: bool)
        ensures
            r == (self.spec_target_count() == 1),
    {
        let mut count: u32 = 0;
        if self.direction.is_some() { count += 1; }
        if self.workspace.is_some() { count += 1; }
        if self.next_active_workspace { count += 1; }
        if self.prev_active_workspace { count += 1; }
        if self.next_workspace { count += 1; }
        if self.prev_workspace { count += 1; }
        if self.recent_workspace { count += 1; }
        count == 1
    }
}

impl InvokeResizeCommand {
    /// At least one extent must be given.
    pub fn validate(&self) -> (r: bool)
        ensures
            r == (self.width is Some || self.height is Some),
    {
        self.width.is_some() || self.height.is_some()
    }
}

/// What a directional focus step leaves behind: the focus pointer is
/// unchanged (no neighbour in that direction), or it moved to the
/// sibling one step towards `d` within the subject's parent group.
pub open spec fn focus_direction_effect(
    old_s: WmState,
    new_s: WmState,
    subject: u64,
    d: Direction,
) -> bool {
    new_s.focused_id == old_s.focused_id || (match old_s.root.parent_of(subject) {
        Some(p) => Container::axis_matches(p.kind, d) && (exists|j: int|
            0 <= j < p.children@.len() && (#[trigger] p.children@[j]).id == subject && (match d {
                Direction::Left | Direction::Up => j > 0 && new_s.focused_id == p.children@[
                    j - 1
                ].id,
                Direction::Right | Direction::Down => j + 1 < p.children@.len() && new_s.focused_id
                    == p.children@[j + 1].id,
            })),
        None => false,
    })
}

/// The binding-mode stack with every entry of the given name removed.
pub open spec fn spec_remove_name(s: Seq<String>, name: Seq<char>) -> Seq<String>
    decreases s,
{
    if s.len() == 0 {
        Seq::empty()
    } else if s[0]@ == name {
        spec_remove_name(s.drop_first(), name)
    } else {
        seq![s[0]] + spec_remove_name(s.drop_first(), name)
    }
}

/// Resolves the subject container of a command: the explicit identifier
/// when one was given, the focused container otherwise. An identifier
/// that does not resolve is `ContainerNotFound`.
pub fn resolve_subject(state: &WmState, subject_id: Option<u64>) -> (r: Result<u64, WmError>)
    requires
        state.inv(),
    ensures
        r matches Ok(id) ==> state.root.contains_id(id) && (match subject_id {
            Some(s) => id == s,
            None => id == state.focused_id,
        }),
        r matches Err(e) ==> e == WmError::ContainerNotFound && (match subject_id {
            Some(s) => !state.root.contains_id(s),
            None => false,
        }),
{
    match subject_id {
        Some(s) => {
            if state.root.contains(s) {
                Ok(s)
            } else {
                Err(WmError::ContainerNotFound)
            }
        },
        None => Ok(state.focused_id),
    }
}

/// Converts a requested width into a ratio of `RATIO_UNIT`: percentages
/// map exactly, pixel amounts are rejected here (the caller converts
/// them against the monitor extent first).
pub fn length_to_ratio(len: LengthValue) -> (r: Option<u32>)
    ensures
        r matches Some(v) ==> v <= RATIO_UNIT && len.unit is Percent && 0 <= len.amount <= 100
            && v == len.amount * 100,
        r is None ==> !(len.unit is Percent && 0 <= len.amount <= 100),
{
    match len.unit {
        LengthUnit::Percent => {
            if 0 <= len.amount && len.amount <= 100 {
                Some((len.amount as u32) * 100)
            } else {
                None
            }
        },
        LengthUnit::Pixels => None,
    }
}

/// Applies one command to the state on behalf of the subject container
/// `subject_id` (or the focused container). Argument groups are
/// validated, and the subject resolved, before any mutation: a rejected
/// command leaves the tree structurally unchanged.
#[verifier::rlimit(100)]
pub fn invoke_command(
    state: &mut WmState,
    subject_id: Option<u64>,
    command: &InvokeCommand,
    now_ms: u64,
) -> (r: Result<(), WmError>)
    requires
        old(state).inv(),
    ensures
        final(state).inv(),
        (subject_id matches Some(s) && !old(state).root.contains_id(s)) ==> r == Err::<
            (),
            WmError,
        >(WmError::ContainerNotFound) && *final(state) == *old(state),
        ({
            let subject = match subject_id {
                Some(s) => s,
                None => old(state).focused_id,
            };
            old(state).root.contains_id(subject) ==> {
                &&& (command matches InvokeCommand::Focus(args) ==> {
                    &&& (r is Err <==> args.spec_target_count() != 1 || (match args.workspace {
                        Some(w) => !old(state).root.contains_id(w),
                        None => false,
                    }))
                    &&& (r is Ok ==> (args.workspace matches Some(w) ==> *final(state) == (
                    WmState {
                        focused_id: w,
                        pending: PendingSync {
                            focus_change: true,
                            focused_effect_update: true,
                            ..old(state).pending
                        },
                        ..*old(state)
                    })))
                    &&& (r is Ok && args.workspace is None ==> *final(state) == (WmState {
                        focused_id: final(state).focused_id,
                        pending: PendingSync {
                            focus_change: true,
                            focused_effect_update: true,
                            ..old(state).pending
                        },
                        ..*old(state)
                    }))
                    &&& (r is Ok && args.workspace is None && args.direction is None ==> final(state).focused_id == old(state).focused_id)
                    &&& (r is Ok ==> (args.direction matches Some(d) ==> focus_direction_effect(
                        *old(state),
                        *final(state),
                        subject,
                        d,
                    )))
                })
                &&& (command is WmTogglePause ==> r is Ok && *final(state) == (WmState {
                    paused: !old(state).paused,
                    ..*old(state)
                }))
                &&& ((command is WmExit || command is WmReloadConfig || command is Ignore) ==> r
                    is Ok && *final(state) == *old(state))
                &&& (command is WmRedraw ==> r is Ok && final(state).root == old(state).root
                    && final(state).focused_id == old(state).focused_id && final(state).pending.containers_to_redraw@.to_set() == old(state).pending.containers_to_redraw@.to_set().insert(subject) && final(state).pending.focused_effect_update)
                &&& (command is Close ==> (r is Ok <==> subject != old(state).root.id) && (r is Ok
                    ==> !final(state).root.contains_id(subject) && final(state).unmanaged_or_minimized_at == Some(now_ms) && final(state).pending == (
                PendingSync { focus_change: true, ..old(state).pending })))
                &&& (command is SetMinimized ==> (r is Ok <==> old(state).root.is_window_id(
                    subject,
                )) && (r is Ok ==> (match final(state).root.subtree(subject) {
                    Some(w) => w.kind == retiled_kind(
                        old(state).root.subtree(subject).unwrap().kind,
                        TilingState::Minimized,
                    ),
                    None => false,
                }) && final(state).unmanaged_or_minimized_at == Some(now_ms)))
                &&& (command is SetTiling ==> (r is Ok <==> old(state).root.is_window_id(subject))
                    && (r is Ok ==> (match final(state).root.subtree(subject) {
                    Some(w) => w.kind == retiled_kind(
                        old(state).root.subtree(subject).unwrap().kind,
                        TilingState::Tiling,
                    ),
                    None => false,
                })))
                &&& (command matches InvokeCommand::SetFloating { .. } ==> (r is Ok <==> old(state).root.is_window_id(subject)) && (r is Ok ==> (match final(state).root.subtree(
                    subject,
                ) {
                    Some(w) => w.kind == retiled_kind(
                        old(state).root.subtree(subject).unwrap().kind,
                        TilingState::Floating,
                    ),
                    None => false,
                })))
                &&& (command matches InvokeCommand::SetFullscreen { .. } ==> (r is Ok <==> old(state).root.is_window_id(subject)) && (r is Ok ==> (match final(state).root.subtree(
                    subject,
                ) {
                    Some(w) => w.kind == retiled_kind(
                        old(state).root.subtree(subject).unwrap().kind,
                        TilingState::Fullscreen,
                    ),
                    None => false,
                })))
                &&& ((command is ToggleMinimized || command is ToggleTiling || command matches
                    InvokeCommand::ToggleFloating { .. } || command matches
                    InvokeCommand::ToggleFullscreen { .. }) ==> (r is Ok <==> old(state).root.is_window_id(subject)) && (r is Ok ==> (match final(state).root.subtree(
                    subject,
                ) {
                    Some(w) => w.kind == retiled_kind(
                        old(state).root.subtree(subject).unwrap().kind,
                        toggled_state(
                            old(state).root.subtree(subject).unwrap().kind,
                            (match command {
                                InvokeCommand::ToggleMinimized => TilingState::Minimized,
                                InvokeCommand::ToggleTiling => TilingState::Tiling,
                                InvokeCommand::ToggleFloating { .. } => TilingState::Floating,
                                _ => TilingState::Fullscreen,
                            }),
                        ),
                    ),
                    None => false,
                })))
                &&& (command matches InvokeCommand::Resize(args) ==> {
                    let len = if args.width is Some {
                        args.width.unwrap()
                    } else {
                        args.height.unwrap()
                    };
                    &&& (r is Ok <==> (args.width is Some || args.height is Some) && (len.unit
                        is Percent && 0 <= len.amount <= 100) && subject != old(state).root.id)
                    &&& (r is Ok ==> (match old(state).root.parent_of(subject) {
                        Some(p) => (match final(state).root.subtree(p.id) {
                            Some(p2) => p2.children@.len() == p.children@.len() && (forall|j: int|
                                0 <= j < p2.children@.len() && (
                                #[trigger] p.children@[j]).participates_in_tiling()
                                    ==> p2.children@[j].ratio as int == crate::ratio::rescaled_ratio(
                                    p.children@,
                                    Some(subject),
                                    (len.amount * 100) as u32,
                                    j,
                                )),
                            None => false,
                        }),
                        None => false,
                    }))
                })
                &&& (command matches InvokeCommand::Size(args) ==> {
                    let len = if args.width is Some {
                        args.width.unwrap()
                    } else {
                        args.height.unwrap()
                    };
                    &&& (r is Ok <==> (args.width is Some || args.height is Some) && (len.unit
                        is Percent && 0 <= len.amount <= 100) && subject != old(state).root.id)
                    &&& (r is Ok ==> (match old(state).root.parent_of(subject) {
                        Some(p) => (match final(state).root.subtree(p.id) {
                            Some(p2) => p2.children@.len() == p.children@.len() && (forall|j: int|
                                0 <= j < p2.children@.len() && (
                                #[trigger] p.children@[j]).participates_in_tiling()
                                    ==> p2.children@[j].ratio as int == crate::ratio::rescaled_ratio(
                                    p.children@,
                                    Some(subject),
                                    (len.amount * 100) as u32,
                                    j,
                                )),
                            None => false,
                        }),
                        None => false,
                    }))
                })
                &&& (*command matches InvokeCommand::SetTilingDirection { tiling_direction } ==> (r
                    is Ok <==> subject != old(state).root.id && (match old(state).root.subtree(
                    subject,
                ) {
                    Some(n) => n.is_tiling_group(),
                    None => false,
                })) && (r is Ok ==> (match final(state).root.subtree(subject) {
                    Some(n) => n.id == subject && n.kind == Container::redirected_kind(
                        old(state).root.subtree(subject).unwrap().kind,
                        tiling_direction,
                    ) && n.is_tiling_group(),
                    None => false,
                })))
                &&& (command is ToggleTilingDirection ==> (r is Ok <==> subject != old(state).root.id && (match old(state).root.subtree(subject) {
                    Some(n) => n.is_tiling_group(),
                    None => false,
                })) && (r is Ok ==> (match final(state).root.subtree(subject) {
                    Some(n) => n.id == subject && n.kind == Container::redirected_kind(
                        old(state).root.subtree(subject).unwrap().kind,
                        toggled_direction(old(state).root.subtree(subject).unwrap().kind),
                    ) && n.is_tiling_group(),
                    None => false,
                })))
                &&& (command matches InvokeCommand::Move(args) ==> {
                    &&& (args.spec_target_count() != 1 ==> r == Err::<(), WmError>(
                    WmError::InvalidCommandArguments))
                    &&& (r is Ok ==> (args.workspace matches Some(w) ==> (match final(state).root.subtree(w) {
                        Some(p2) => exists|j: int|
                            0 <= j < p2.children@.len() && (#[trigger] p2.children@[j]).id
                                == subject,
                        None => false,
                    })))
                })
                &&& (command matches InvokeCommand::WmEnableBindingMode { name } ==> r is Ok
                    && *final(state) == (WmState {
                    binding_modes: final(state).binding_modes,
                    ..*old(state)
                }) && final(state).binding_modes@.len() == old(state).binding_modes@.len() + 1
                    && final(state).binding_modes@.last()@ == name@ && (forall|j: int|
                    0 <= j < old(state).binding_modes@.len()
                        ==> #[trigger] final(state).binding_modes@[j] == old(state).binding_modes@[j]))
                &&& (command matches InvokeCommand::WmDisableBindingMode { name } ==> r is Ok
                    && *final(state) == (WmState {
                    binding_modes: final(state).binding_modes,
                    ..*old(state)
                }) && final(state).binding_modes@ == spec_remove_name(
                    old(state).binding_modes@,
                    name@,
                ))
                &&& ((command matches InvokeCommand::AdjustBorders(..) || command matches
                    InvokeCommand::Position(..) || command matches
                    InvokeCommand::SetTitleBarVisibility { .. } || command matches
                    InvokeCommand::SetOpacity { .. } || command matches InvokeCommand::ShellExec {
                    ..
                } || command matches InvokeCommand::MoveWorkspace { .. } || command matches
                    InvokeCommand::WmCycleFocus { .. }) ==> r == Err::<(), WmError>(
                    WmError::InvalidOperation,
                ) && *final(state) == *old(state))
            }
        }),
{
    let subject = match resolve_subject(state, subject_id) {
        Ok(s) => s,
        Err(e) => {
            return Err(e);
        },
    };
    match command {
        InvokeCommand::Focus(args) => {
            if !args.validate() {
                return Err(WmError::InvalidCommandArguments);
            }
            // A workspace target moves the focus pointer directly; the
            // other targets pick the next focus on flush, when the
            // manager re-asserts its intended focus.
            if let Some(w) = args.workspace {
                if !state.root.contains(w) {
                    return Err(WmError::ContainerNotFound);
                }
                state.focused_id = w;
            } else if let Some(d) = args.direction {
                // Directional focus steps to the neighbouring sibling
                // along the parent group's axis.
                if subject != state.root.id {
                    if let Some(t) = state.root.neighbor_in_direction(subject, d) {
                        state.focused_id = t;
                        proof {
                            assert(focus_direction_effect(*old(state), *state, subject, d));
                        }
                    }
                }
            }
            state.pending.queue_focus_change();
            state.pending.queue_focused_effect_update();
            Ok(())
        },
        InvokeCommand::Resize(args) | InvokeCommand::Size(args) => {
            if !args.validate() {
                return Err(WmError::InvalidCommandArguments);
            }
            let ratio = match args.width {
                Some(w) => length_to_ratio(w),
                None => match args.height {
                    Some(h) => length_to_ratio(h),
                    None => None,
                },
            };
            match ratio {
                Some(v) => {
                    if subject == state.root.id {
                        return Err(WmError::InvalidOperation);
                    }
                    if state.root.resize_ratio(subject, v) {
                        state.pending.queue_redraw(subject);
                        Ok(())
                    } else {
                        Err(WmError::ContainerNotFound)
                    }
                },
                None => Err(WmError::InvalidCommandArguments),
            }
        },
        InvokeCommand::SetMinimized => {
            let r = set_subject_tiling_state(state, subject, TilingState::Minimized);
            if r.is_ok() {
                state.record_minimize(now_ms);
            }
            r
        },
        InvokeCommand::SetTiling => set_subject_tiling_state(state, subject, TilingState::Tiling),
        InvokeCommand::ToggleMinimized => {
            let r = toggle_subject_tiling_state(state, subject, TilingState::Minimized);
            if r.is_ok() {
                state.record_minimize(now_ms);
            }
            r
        },
        InvokeCommand::ToggleTiling => toggle_subject_tiling_state(
            state,
            subject,
            TilingState::Tiling,
        ),
        InvokeCommand::SetFloating { .. } => set_subject_tiling_state(
            state,
            subject,
            TilingState::Floating,
        ),
        InvokeCommand::ToggleFloating { .. } => toggle_subject_tiling_state(
            state,
            subject,
            TilingState::Floating,
        ),
        InvokeCommand::SetFullscreen { .. } => set_subject_tiling_state(
            state,
            subject,
            TilingState::Fullscreen,
        ),
        InvokeCommand::ToggleFullscreen { .. } => toggle_subject_tiling_state(
            state,
            subject,
            TilingState::Fullscreen,
        ),
        InvokeCommand::Close => {
            if subject == state.root.id {
                return Err(WmError::InvalidOperation);
            }
            match state.unmanage(subject, now_ms) {
                Ok(()) => Ok(()),
                Err(e) => Err(e),
            }
        },
        InvokeCommand::WmTogglePause => {
            state.paused = !state.paused;
            Ok(())
        },
        InvokeCommand::WmRedraw => {
            state.pending.queue_redraw(subject);
            state.pending.queue_focused_effect_update();
            Ok(())
        },
        InvokeCommand::SetTilingDirection { tiling_direction } => {
            if subject == state.root.id {
                return Err(WmError::InvalidOperation);
            }
            if state.root.set_direction(subject, *tiling_direction) {
                state.pending.queue_redraw(subject);
                Ok(())
            } else {
                proof {
                    crate::tree::lemma_same_tree_wf(state.root, old(state).root);
                    assert forall|cid: u64| true implies #[trigger] state.root.count_id(cid)
                        == old(state).root.count_id(cid) by {
                        crate::tree::lemma_same_tree_count(state.root, old(state).root, cid);
                    }
                }
                Err(WmError::InvalidOperation)
            }
        },
        InvokeCommand::ToggleTilingDirection => {
            if subject == state.root.id {
                return Err(WmError::InvalidOperation);
            }
            let current = match state.root.find_node(subject) {
                Some(n) => match n.kind {
                    ContainerKind::Workspace { direction, .. } => direction,
                    ContainerKind::Split { direction } => direction,
                    _ => {
                        return Err(WmError::InvalidOperation);
                    },
                },
                None => {
                    return Err(WmError::ContainerNotFound);
                },
            };
            if state.root.set_direction(subject, current.inverse()) {
                state.pending.queue_redraw(subject);
                Ok(())
            } else {
                proof {
                    crate::tree::lemma_same_tree_wf(state.root, old(state).root);
                    assert forall|cid: u64| true implies #[trigger] state.root.count_id(cid)
                        == old(state).root.count_id(cid) by {
                        crate::tree::lemma_same_tree_count(state.root, old(state).root, cid);
                    }
                }
                Err(WmError::InvalidOperation)
            }
        },
        InvokeCommand::Move(args) => {
            if !args.validate() {
                return Err(WmError::InvalidCommandArguments);
            }
            if let Some(w) = args.workspace {
                let arity = match state.root.find_node(w) {
                    Some(p) => p.children.len(),
                    None => 0,
                };
                state.move_container(subject, w, arity)
            } else {
                // Directional and relative-workspace targets resolve on
                // flush against the platform's monitor arrangement.
                Err(WmError::InvalidOperation)
            }
        },
        InvokeCommand::WmEnableBindingMode { name } => {
            let entry = name.clone();
            proof {
                assert(entry@ == name@);
            }
            state.binding_modes.push(entry);
            Ok(())
        },
        InvokeCommand::WmDisableBindingMode { name } => {
            let n = state.binding_modes.len();
            let mut kept: Vec<String> = Vec::new();
            let ghost orig = state.binding_modes@;
            let mut i: usize = 0;
            proof {
                assert(orig.skip(0) =~= orig);
            }
            while i < n
                invariant
                    0 <= i <= n,
                    n == orig.len(),
                    state.binding_modes@ == orig,
                    kept@ + spec_remove_name(orig.skip(i as int), name@) =~= spec_remove_name(
                        orig,
                        name@,
                    ),
                decreases n - i,
            {
                proof {
                    assert(orig.skip(i as int).len() > 0);
                    assert(orig.skip(i as int)[0] == orig[i as int]);
                    assert(orig.skip(i as int).drop_first() =~= orig.skip(i as int + 1));
                }
                if !(state.binding_modes[i] == *name) {
                    let entry = state.binding_modes[i].clone();
                    proof {
                        assert(entry == orig[i as int]);
                    }
                    kept.push(entry);
                    proof {
                        assert(kept@ + spec_remove_name(orig.skip(i as int + 1), name@)
                            =~= spec_remove_name(orig, name@));
                    }
                }
                i += 1;
            }
            proof {
                assert(orig.skip(n as int) =~= Seq::<String>::empty());
                assert(kept@ =~= spec_remove_name(orig, name@));
            }
            state.binding_modes = kept;
            Ok(())
        },
        InvokeCommand::WmExit | InvokeCommand::WmReloadConfig | InvokeCommand::Ignore => Ok(()),
        _ => {
            // The remaining commands act through the platform or the
            // configuration: their native side runs outside the tree.
            Err(WmError::InvalidOperation)
        },
    }
}

/// The other tiling axis.
pub open spec fn spec_inverse(t: TilingDirection) -> TilingDirection {
    match t {
        TilingDirection::Horizontal => TilingDirection::Vertical,
        TilingDirection::Vertical => TilingDirection::Horizontal,
    }
}

/// The direction a toggle of a tiling group lands on.
pub open spec fn toggled_direction(k: ContainerKind) -> TilingDirection {
    match k {
        ContainerKind::Workspace { direction, .. } => spec_inverse(direction),
        ContainerKind::Split { direction } => spec_inverse(direction),
        _ => TilingDirection::Horizontal,
    }
}

/// The tiling state a toggle lands on: plain tiling when the window is
/// already in the toggled state, that state otherwise.
pub open spec fn toggled_state(k: ContainerKind, ts: TilingState) -> TilingState {
    match k {
        ContainerKind::Window { tiling_state, .. } => if tiling_state == ts {
            TilingState::Tiling
        } else {
            ts
        },
        _ => ts,
    }
}

/// The kind of a window with its tiling state replaced.
pub open spec fn retiled_kind(k: ContainerKind, ts: TilingState) -> ContainerKind {
    match k {
        ContainerKind::Window { handle, display_state, active_drag, .. } => ContainerKind::Window {
            handle,
            tiling_state: ts,
            display_state,
            active_drag,
        },
        _ => k,
    }
}

/// Sets the tiling state of the subject window: succeeds exactly when
/// the subject is a window, and then replaces only its tiling state,
/// queueing it for redraw.
fn set_subject_tiling_state(state: &mut WmState, subject: u64, ts: TilingState) -> (r: Result<
    (),
    WmError,
>)
    requires
        old(state).inv(),
    ensures
        final(state).inv(),
        r is Ok <==> old(state).root.is_window_id(subject),
        r is Ok ==> (match final(state).root.subtree(subject) {
            Some(w) => w.id == subject && w.kind == retiled_kind(
                old(state).root.subtree(subject).unwrap().kind,
                ts,
            ),
            None => false,
        }) && final(state).pending.containers_to_redraw@.to_set() == old(state).pending.containers_to_redraw@.to_set().insert(subject) && (ts is Minimized ==> final(state).pending.focus_change),
        r is Err ==> crate::tree::same_tree(final(state).root, old(state).root) && final(state).pending == old(state).pending,
        final(state).paused == old(state).paused,
        final(state).focused_id == old(state).focused_id,
        final(state).unmanaged_or_minimized_at == old(state).unmanaged_or_minimized_at,
        final(state).next_id == old(state).next_id,
{
    proof {
        crate::tree::lemma_same_tree_refl(old(state).root);
    }
    let info = match state.root.find_node(subject) {
        Some(n) => match n.kind {
            ContainerKind::Window { handle, tiling_state, display_state, active_drag } => (
                tiling_state,
                display_state,
                active_drag,
            ),
            _ => {
                return Err(WmError::InvalidOperation);
            },
        },
        None => {
            return Err(WmError::ContainerNotFound);
        },
    };
    let patch = WindowPatch { tiling_state: ts, display_state: info.1, active_drag: info.2 };
    if state.root.set_window_fields(subject, patch) {
        if matches!(ts, TilingState::Minimized) {
            state.pending.queue_focus_change();
        }
        state.pending.queue_redraw(subject);
        Ok(())
    } else {
        proof {
            crate::tree::lemma_same_tree_wf(state.root, old(state).root);
            assert forall|cid: u64| true implies #[trigger] state.root.count_id(cid) == old(state).root.count_id(cid) by {
                crate::tree::lemma_same_tree_count(state.root, old(state).root, cid);
            }
        }
        Err(WmError::ContainerNotFound)
    }
}

/// Toggles the subject window between `ts` and plain tiling: succeeds
/// exactly when the subject is a window.
fn toggle_subject_tiling_state(state: &mut WmState, subject: u64, ts: TilingState) -> (r: Result<
    (),
    WmError,
>)
    requires
        old(state).inv(),
    ensures
        final(state).inv(),
        r is Ok <==> old(state).root.is_window_id(subject),
        r is Ok ==> (match final(state).root.subtree(subject) {
            Some(w) => w.id == subject && w.kind == retiled_kind(
                old(state).root.subtree(subject).unwrap().kind,
                (match old(state).root.subtree(subject).unwrap().kind {
                    ContainerKind::Window { tiling_state, .. } => if tiling_state == ts {
                        TilingState::Tiling
                    } else {
                        ts
                    },
                    _ => ts,
                }),
            ),
            None => false,
        }),
        final(state).paused == old(state).paused,
        final(state).focused_id == old(state).focused_id,
        final(state).unmanaged_or_minimized_at == old(state).unmanaged_or_minimized_at,
{
    let current = match state.root.find_node(subject) {
        Some(n) => match n.kind {
            ContainerKind::Window { tiling_state, .. } => tiling_state,
            _ => {
                return Err(WmError::InvalidOperation);
            },
        },
        None => {
            return Err(WmError::ContainerNotFound);
        },
    };
    let next = if current == ts {
        TilingState::Tiling
    } else {
        ts
    };
    set_subject_tiling_state(state, subject, next)
}

} // verus!
