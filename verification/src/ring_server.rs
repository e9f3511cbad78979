//! The agent's answers to the overlay: a command is checked against the open
//! session, and a command that counts is felt.

use crate::action_ring::{
    activate_answer, activated, hover_answer, hovered, ActionRingActivation,
    ActionRingCommandError, ActionRingManager, ActionRingSlot,
};
use crate::haptics::{HapticRequest, HapticWaveform, RingHapticPlayer};
use crate::route::{clone_route, DeviceRoute};
use vstd::prelude::*;

verus! {

/// What waits to be felt after a feel was asked for.
pub open spec fn felt(
    before: Option<HapticRequest>,
    route: Option<DeviceRoute>,
    waveform: HapticWaveform,
) -> Option<HapticRequest> {
    match route {
        Some(route) => Some(HapticRequest { route, waveform }),
        None => before,
    }
}

/// Answer a hover report. Moving onto a slot is felt; a report that changes
/// nothing is not.
pub fn action_ring_hover<A, I: Copy>(
    manager: &mut ActionRingManager<A, I>,
    haptics: &mut RingHapticPlayer,
    session_id: u64,
    slot: ActionRingSlot,
    now: u64,
) -> (answer: Result<(), ActionRingCommandError>)
    ensures
        final(manager)@ == hovered(old(manager)@, session_id, slot, now),
        match hover_answer(old(manager)@, session_id, slot, now) {
            Err(error) => answer == Err::<(), ActionRingCommandError>(error)
                && final(haptics).waiting == old(haptics).waiting,
            Ok(None) => answer is Ok && final(haptics).waiting == old(haptics).waiting,
            Ok(Some(hover)) => answer is Ok && final(haptics).waiting == felt(
                old(haptics).waiting,
                hover.haptic_route,
                HapticWaveform::SubtleCollision,
            ),
        },
{
    match manager.hover(session_id, slot, now) {
        Err(error) => Err(error),
        Ok(None) => Ok(()),
        Ok(Some(hover)) => {
            haptics.play(hover.haptic_route, HapticWaveform::SubtleCollision);
            Ok(())
        },
    }
}

/// Answer a pick: the action is returned to be carried out, and it is felt.
pub fn action_ring_activate<A, I: Copy>(
    manager: &mut ActionRingManager<A, I>,
    haptics: &mut RingHapticPlayer,
    session_id: u64,
    slot: ActionRingSlot,
    now: u64,
) -> (answer: Result<ActionRingActivation<A>, ActionRingCommandError>)
    ensures
        answer == activate_answer(old(manager)@, session_id, slot, now),
        final(manager)@ == activated(old(manager)@, session_id, slot, now),
        final(haptics).waiting == match answer {
            Ok(activation) => felt(
                old(haptics).waiting,
                activation.haptic_route,
                HapticWaveform::DampStateChange,
            ),
            Err(_) => old(haptics).waiting,
        },
{
    match manager.activate(session_id, slot, now) {
        Err(error) => Err(error),
        Ok(activation) => {
            haptics.play(
                clone_route(&activation.haptic_route),
                HapticWaveform::DampStateChange,
            );
            Ok(activation)
        },
    }
}

} // verus!
