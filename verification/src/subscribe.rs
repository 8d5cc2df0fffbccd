//! Event subscriptions: which IPC client receives which window manager
//! events, and the watcher's decision step.
//!
//! A subscription pairs a client-supplied identifier with a set of event
//! kinds, held as a bitmask. Delivery tags each matching subscriber's
//! identifier; unsubscribing ends that stream with an end-of-stream
//! sentinel (`None` from the deliverer), never an error.

use vstd::prelude::*;

use crate::commands::SubscribableEvent;

verus! {

/// Bit of one event kind in a subscription mask.
pub fn event_bit(e: SubscribableEvent) -> (r: u32)
    ensures
        r == spec_event_bit(e),
{
    match e {
        SubscribableEvent::All => 0x0000_ffff,
        SubscribableEvent::ApplicationExiting => 0x1,
        SubscribableEvent::BindingModesChanged => 0x2,
        SubscribableEvent::FocusChanged => 0x4,
        SubscribableEvent::FocusedContainerMoved => 0x8,
        SubscribableEvent::MonitorAdded => 0x10,
        SubscribableEvent::MonitorUpdated => 0x20,
        SubscribableEvent::MonitorRemoved => 0x40,
        SubscribableEvent::TilingDirectionChanged => 0x80,
        SubscribableEvent::UserConfigChanged => 0x100,
        SubscribableEvent::WindowManaged => 0x200,
        SubscribableEvent::WindowUnmanaged => 0x400,
        SubscribableEvent::WorkspaceActivated => 0x800,
        SubscribableEvent::WorkspaceDeactivated => 0x1000,
        SubscribableEvent::WorkspaceUpdated => 0x2000,
        SubscribableEvent::PauseChanged => 0x4000,
    }
}

/// The mask of one event kind; `All` covers every kind.
pub open spec fn spec_event_bit(e: SubscribableEvent) -> u32 {
    match e {
        SubscribableEvent::All => 0x0000_ffff,
        SubscribableEvent::ApplicationExiting => 0x1,
        SubscribableEvent::BindingModesChanged => 0x2,
        SubscribableEvent::FocusChanged => 0x4,
        SubscribableEvent::FocusedContainerMoved => 0x8,
        SubscribableEvent::MonitorAdded => 0x10,
        SubscribableEvent::MonitorUpdated => 0x20,
        SubscribableEvent::MonitorRemoved => 0x40,
        SubscribableEvent::TilingDirectionChanged => 0x80,
        SubscribableEvent::UserConfigChanged => 0x100,
        SubscribableEvent::WindowManaged => 0x200,
        SubscribableEvent::WindowUnmanaged => 0x400,
        SubscribableEvent::WorkspaceActivated => 0x800,
        SubscribableEvent::WorkspaceDeactivated => 0x1000,
        SubscribableEvent::WorkspaceUpdated => 0x2000,
        SubscribableEvent::PauseChanged => 0x4000,
    }
}

/// The mask of a list of event kinds.
pub open spec fn spec_mask_of(events: Seq<SubscribableEvent>) -> u32
    decreases events,
{
    if events.len() == 0 {
        0u32
    } else {
        spec_event_bit(events[0]) | spec_mask_of(events.drop_first())
    }
}

/// Folds a list of subscribed event kinds into one mask.
pub fn mask_of(events: &Vec<SubscribableEvent>) -> (r: u32)
    ensures
        r == spec_mask_of(events@),
{
    let n = events.len();
    let mut i: usize = n;
    let mut acc: u32 = 0;
    while i > 0
        invariant
            0 <= i <= n,
            n == events@.len(),
            acc == spec_mask_of(events@.skip(i as int)),
        decreases i,
    {
        i -= 1;
        proof {
            assert(events@.skip(i as int).len() > 0);
            assert(events@.skip(i as int)[0] == events@[i as int]);
            assert(events@.skip(i as int).drop_first() =~= events@.skip(i as int + 1));
        }
        acc = event_bit(events[i]) | acc;
    }
    proof {
        assert(events@.skip(0) =~= events@);
    }
    acc
}

/// One client's subscription.
#[derive(Clone, Copy, Debug, PartialEq, Eq, Structural)]
pub struct Subscription {
    pub id: u128,
    pub mask: u32,
}

/// All live subscriptions, in subscription order.
pub struct SubscriptionRegistry {
    pub subs: Vec<Subscription>,
}

/// The subscribers whose mask covers the event bit, in order.
pub open spec fn spec_receivers(subs: Seq<Subscription>, bit: u32) -> Seq<u128>
    decreases subs,
{
    if subs.len() == 0 {
        Seq::empty()
    } else {
        if subs[0].mask & bit != 0 {
            seq![subs[0].id] + spec_receivers(subs.drop_first(), bit)
        } else {
            spec_receivers(subs.drop_first(), bit)
        }
    }
}

impl SubscriptionRegistry {
    /// Identifiers are unique among live subscriptions.
    pub open spec fn inv(self) -> bool {
        forall|i: int, j: int|
            0 <= i < j < self.subs@.len() ==> (#[trigger] self.subs@[i]).id != (
            #[trigger] self.subs@[j]).id
    }

    /// Whether `id` names a live subscription.
    pub open spec fn spec_has(self, id: u128) -> bool {
        exists|i: int| 0 <= i < self.subs@.len() && (#[trigger] self.subs@[i]).id == id
    }

    /// An empty registry.
    pub fn new() -> (r: SubscriptionRegistry)
        ensures
            r.inv(),
            r.subs@.len() == 0,
    {
        SubscriptionRegistry { subs: Vec::new() }
    }

    /// Registers a subscription under the fresh identifier `id` and
    /// returns that identifier, which tags every delivered event until
    /// the subscription ends. An identifier already in use is refused.
    pub fn subscribe(&mut self, id: u128, events: &Vec<SubscribableEvent>) -> (r: Option<u128>)
        requires
            old(self).inv(),
        ensures
            final(self).inv(),
            r == Some(id) <==> !old(self).spec_has(id),
            r == Some(id) ==> final(self).subs@ == old(self).subs@.push(
                Subscription { id, mask: spec_mask_of(events@) },
            ),
            r is None ==> *final(self) == *old(self),
    {
        if self.has(id) {
            return None;
        }
        let mask = mask_of(events);
        self.subs.push(Subscription { id, mask });
        proof {
            assert forall|i: int, j: int|
                0 <= i < j < self.subs@.len() implies (#[trigger] self.subs@[i]).id != (
            #[trigger] self.subs@[j]).id by {
                if j == self.subs@.len() - 1 {
                    assert(self.subs@[i] == old(self).subs@[i]);
                }
            }
        }
        Some(id)
    }

    /// Whether `id` names a live subscription.
    pub fn has(&self, id: u128) -> (r: bool)
        ensures
            r == self.spec_has(id),
    {
        let n = self.subs.len();
        let mut i: usize = 0;
        while i < n
            invariant
                0 <= i <= n,
                n == self.subs@.len(),
                forall|j: int| 0 <= j < i ==> (#[trigger] self.subs@[j]).id != id,
            decreases n - i,
        {
            if self.subs[i].id == id {
                return true;
            }
            i += 1;
        }
        false
    }

    /// Ends the subscription `id`: its event stream terminates with an
    /// end-of-stream sentinel on the next delivery, not with an error.
    /// Returns whether such a subscription existed.
    pub fn unsubscribe(&mut self, id: u128) -> (r: bool)
        requires
            old(self).inv(),
        ensures
            final(self).inv(),
            r == old(self).spec_has(id),
            !final(self).spec_has(id),
            !r ==> *final(self) == *old(self),
            r ==> (exists|i: int|
                0 <= i < old(self).subs@.len() && (#[trigger] old(self).subs@[i]).id == id && final(self).subs@ == old(self).subs@.remove(i)),
    {
        let n = self.subs.len();
        let mut i: usize = 0;
        while i < n
            invariant
                0 <= i <= n,
                n == self.subs@.len(),
                old(self).inv(),
                *self == *old(self),
                forall|j: int| 0 <= j < i ==> (#[trigger] self.subs@[j]).id != id,
            decreases n - i,
        {
            if self.subs[i].id == id {
                self.subs.remove(i);
                proof {
                    let after = self.subs@;
                    let before = old(self).subs@;
                    assert forall|a: int, b: int|
                        0 <= a < b < after.len() implies (#[trigger] after[a]).id != (
                    #[trigger] after[b]).id by {
                        if a < i {
                            assert(after[a] == before[a]);
                        } else {
                            assert(after[a] == before[a + 1]);
                        }
                        if b < i {
                            assert(after[b] == before[b]);
                        } else {
                            assert(after[b] == before[b + 1]);
                        }
                    }
                    assert(!(*self).spec_has(id)) by {
                        if (*self).spec_has(id) {
                            let w = choose|w: int|
                                0 <= w < after.len() && (#[trigger] after[w]).id == id;
                            if w < i {
                                assert(after[w] == before[w]);
                            } else {
                                assert(after[w] == before[w + 1]);
                            }
                        }
                    }
                }
                return true;
            }
            i += 1;
        }
        proof {
            if (*self).spec_has(id) {
                let w = choose|w: int|
                    0 <= w < self.subs@.len() && (#[trigger] self.subs@[w]).id == id;
            }
        }
        false
    }

    /// The subscription identifiers an event of kind `e` is delivered
    /// to, each tagging one copy of the event, in subscription order.
    pub fn receivers(&self, e: SubscribableEvent) -> (r: Vec<u128>)
        ensures
            r@ == spec_receivers(self.subs@, spec_event_bit(e)),
    {
        let bit = event_bit(e);
        let n = self.subs.len();
        let mut out: Vec<u128> = Vec::new();
        let mut i: usize = 0;
        proof {
            assert(self.subs@.skip(0) =~= self.subs@);
        }
        while i < n
            invariant
                0 <= i <= n,
                n == self.subs@.len(),
                bit == spec_event_bit(e),
                out@ + spec_receivers(self.subs@.skip(i as int), bit) =~= spec_receivers(
                    self.subs@,
                    bit,
                ),
            decreases n - i,
        {
            proof {
                assert(self.subs@.skip(i as int).len() > 0);
                assert(self.subs@.skip(i as int)[0] == self.subs@[i as int]);
                assert(self.subs@.skip(i as int).drop_first() =~= self.subs@.skip(i as int + 1));
            }
            if self.subs[i].mask & bit != 0 {
                out.push(self.subs[i].id);
                proof {
                    assert(out@ + spec_receivers(self.subs@.skip(i as int + 1), bit)
                        =~= spec_receivers(self.subs@, bit));
                }
            }
            i += 1;
        }
        proof {
            assert(self.subs@.skip(n as int) =~= Seq::<Subscription>::empty());
            assert(out@ =~= spec_receivers(self.subs@, bit));
        }
        out
    }
}

/// What the watcher loop observes on its subscription stream.
#[derive(Clone, Copy, Debug, PartialEq, Eq, Structural)]
pub enum WatcherEvent {
    /// A window came under management, with its native handle.
    Managed { handle: u64 },
    /// A window left management, with its native handle.
    Unmanaged { handle: u64 },
    /// The subscription stream ended (the end-of-stream sentinel).
    Ended,
}

/// What the watcher does in reaction to one observation.
#[derive(Clone, Copy, Debug, PartialEq, Eq, Structural)]
pub enum WatcherAction {
    /// Remember the handle as managed.
    Track { handle: u64 },
    /// Forget the handle.
    Untrack { handle: u64 },
    /// Run cleanup for all remembered handles and stop.
    CleanupAndStop,
}

/// One decision step of the watcher: managed windows are tracked,
/// unmanaged ones untracked, and the end-of-stream sentinel stops the
/// loop with a final cleanup. The surrounding loop performs the action
/// and hands back the next observation.
pub fn watcher_step(event: WatcherEvent) -> (r: WatcherAction)
    ensures
        r == (match event {
            WatcherEvent::Managed { handle } => WatcherAction::Track { handle },
            WatcherEvent::Unmanaged { handle } => WatcherAction::Untrack { handle },
            WatcherEvent::Ended => WatcherAction::CleanupAndStop,
        }),
{
    match event {
        WatcherEvent::Managed { handle } => WatcherAction::Track { handle },
        WatcherEvent::Unmanaged { handle } => WatcherAction::Untrack { handle },
        WatcherEvent::Ended => WatcherAction::CleanupAndStop,
    }
}

} // verus!
