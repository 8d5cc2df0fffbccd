//! The window rule engine: configured actions bound to window lifecycle
//! events. At a lifecycle event every matching rule's action is applied
//! through the command invoker, in configuration order, unless a rule
//! marks the window "ignore", which suppresses the remaining actions.
//! A failing action is recovered at its own boundary: the remaining
//! rules still run.

use vstd::prelude::*;

use crate::commands::{invoke_command, InvokeCommand};
use crate::state::WmState;

verus! {

/// The lifecycle events window rules can bind to.
#[derive(Clone, Copy, Debug, PartialEq, Eq, Structural)]
pub enum RuleEvent {
    Manage,
    Focus,
}

/// One configured rule: an action bound to a lifecycle event.
pub struct WindowRule {
    pub event: RuleEvent,
    pub action: InvokeCommand,
}

/// Whether some rule bound to `event` is an ignore rule.
pub open spec fn spec_has_ignore(rules: Seq<WindowRule>, event: RuleEvent) -> bool {
    exists|j: int|
        0 <= j < rules.len() && (#[trigger] rules[j]).event == event && rules[j].action is Ignore
}

/// Runs the window rules bound to `event` against the subject container:
/// each matching action is applied through the command invoker, in
/// order; an `Ignore` rule stops the run and reports suppression. A
/// failing action never aborts the run (spec of the processing loop:
/// errors are recovered at the boundary of the single command).
pub fn run_window_rules(
    state: &mut WmState,
    subject: u64,
    rules: &Vec<WindowRule>,
    event: RuleEvent,
    now_ms: u64,
) -> (r: bool)
    requires
        old(state).inv(),
    ensures
        final(state).inv(),
        !r ==> !spec_has_ignore(rules@, event),
        r ==> spec_has_ignore(rules@, event),
{
    let n = rules.len();
    let mut i: usize = 0;
    while i < n
        invariant
            0 <= i <= n,
            n == rules@.len(),
            state.inv(),
            forall|j: int|
                0 <= j < i ==> !((#[trigger] rules@[j]).event == event && rules@[j].action
                    is Ignore),
        decreases n - i,
    {
        if rules[i].event == event {
            if matches!(rules[i].action, InvokeCommand::Ignore) {
                return true;
            }
            let _applied = invoke_command(state, Some(subject), &rules[i].action, now_ms);
        }
        i += 1;
    }
    false
}

} // verus!
