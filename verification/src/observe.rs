//! What the game host observes between callbacks: which player transitions become
//! `on_event` notifications, when the world changed, and whether a teleport may be requested.
use vstd::prelude::*;

verus! {

/// A sampled player transition, delivered as an `on_event` notification.
#[derive(Debug, Clone, Copy, PartialEq, Eq, Structural)]
pub enum Transition {
    /// `bail_changed`, with the new bail flag.
    Bail { bailing: bool },
    /// `player_state_changed`, with the previous and the new native state identifier.
    PlayerState { previous: u32, state: u32 },
    /// `grind_changed`; the grind details come from the snapshot.
    Grind { active: bool },
}

/// The last observations: the world generation scripts were told about, and the player's
/// bail flag, native state and grind flag after the last fixed step.
pub struct Observer {
    pub generation: u64,
    pub bailing: bool,
    pub state: u32,
    pub grinding: bool,
}

/// The transitions between two observations, in delivery order: bail, state, grind.
pub open spec fn transitions(
    bailing: bool,
    state: u32,
    grinding: bool,
    now_bailing: bool,
    now_state: u32,
    now_grinding: bool,
) -> Seq<Transition> {
    let a = if now_bailing != bailing {
        seq![Transition::Bail { bailing: now_bailing }]
    } else {
        Seq::empty()
    };
    let b = if now_state != state {
        seq![Transition::PlayerState { previous: state, state: now_state }]
    } else {
        Seq::empty()
    };
    let c = if now_grinding != grinding {
        seq![Transition::Grind { active: now_grinding }]
    } else {
        Seq::empty()
    };
    a + b + c
}

impl Observer {
    /// Nothing observed yet: no world announced, and the zero/false baseline, so the first
    /// observations may already report changes.
    pub fn new() -> (o: Self)
        ensures
            o.generation == u64::MAX,
            !o.bailing,
            o.state == 0,
            !o.grinding,
    {
        Observer { generation: u64::MAX, bailing: false, state: 0, grinding: false }
    }

    /// Records the current world generation; returns whether it differs from the one last
    /// recorded, in which case mod objects are retired and `world_changed` is due.
    pub fn world_changed(&mut self, generation: u64) -> (r: bool)
        ensures
            r == (generation != old(self).generation),
            final(self).generation == generation,
            final(self).bailing == old(self).bailing,
            final(self).state == old(self).state,
            final(self).grinding == old(self).grinding,
    {
        let changed = generation != self.generation;
        self.generation = generation;
        changed
    }

    /// Records the player after a fixed step and returns the transitions to announce.
    pub fn step(&mut self, bailing: bool, state: u32, grinding: bool) -> (r: Vec<Transition>)
        ensures
            r@ == transitions(old(self).bailing, old(self).state, old(self).grinding, bailing, state, grinding),
            final(self).bailing == bailing,
            final(self).state == state,
            final(self).grinding == grinding,
            final(self).generation == old(self).generation,
    {
        let mut out: Vec<Transition> = Vec::new();
        if bailing != self.bailing {
            out.push(Transition::Bail { bailing });
        }
        let ghost a = out@;
        if state != self.state {
            out.push(Transition::PlayerState { previous: self.state, state });
        }
        let ghost ab = out@;
        if grinding != self.grinding {
            out.push(Transition::Grind { active: grinding });
        }
        proof {
            let t = transitions(self.bailing, self.state, self.grinding, bailing, state, grinding);
            assert(out@ =~= t);
        }
        self.bailing = bailing;
        self.state = state;
        self.grinding = grinding;
        out
    }
}

/// The native state identifier of an actor reset in progress.
pub const RESET_STATE: u32 = 702;

/// Whether the skater may be teleported now: not while driving a vehicle, not during map
/// loading or replay, and not while a reset is flagged, running or already requested.
pub open spec fn teleport_refusal(
    in_vehicle: bool,
    map_busy: bool,
    replay: bool,
    reset_flag: bool,
    state: u32,
    teleport_pending: bool,
) -> Option<Seq<char>> {
    if in_vehicle {
        Some("Exit the vehicle before teleporting the skater"@)
    } else if map_busy || replay {
        Some("Teleport unavailable during map loading or replay"@)
    } else if reset_flag || state == RESET_STATE || teleport_pending {
        Some("Teleport unavailable during reset"@)
    } else {
        None
    }
}

/// Decides whether a teleport may be requested (see `teleport_refusal`).
pub fn teleport_ready(
    in_vehicle: bool,
    map_busy: bool,
    replay: bool,
    reset_flag: bool,
    state: u32,
    teleport_pending: bool,
) -> (r: Result<(), String>)
    ensures
        match teleport_refusal(in_vehicle, map_busy, replay, reset_flag, state, teleport_pending) {
            None => r is Ok,
            Some(m) => r matches Err(e) && e@ == m,
        },
{
    if in_vehicle {
        return Err(String::from_str("Exit the vehicle before teleporting the skater"));
    }
    if map_busy || replay {
        return Err(String::from_str("Teleport unavailable during map loading or replay"));
    }
    if reset_flag || state == RESET_STATE || teleport_pending {
        return Err(String::from_str("Teleport unavailable during reset"));
    }
    Ok(())
}

} // verus!
