//! What happens to one ring, from the press that opens it to the command that
//! ends it.

use crate::action_ring::{
    activate_answer, activated, begun, closed_session, dismissal, hover_answer, hovered, id_after,
    ids_in_order, shown_slots, slot_actions, told, ActionRingActivation, ActionRingCommandError,
    ActionRingEntry, ActionRingHover, ActionRingSessionSpec, ActionRingSlot, SessionView,
    SessionsView, SESSION_LIFETIME, SLOT_COUNT,
};
use crate::haptics::{HapticRequest, HapticWaveform};
use crate::ring_server::felt;
use crate::route::DeviceRoute;
use vstd::prelude::*;

verus! {

/// Whether `session` is the open one, and still within its time at `now`.
pub open spec fn live<A, I>(ring: SessionsView<A, I>, session: SessionView<A, I>, now: u64) -> bool {
    ring.active == Some(session) && now - session.opened_at <= SESSION_LIFETIME
}

/// Whether no session is within its time at `now`.
pub open spec fn nothing_live<A, I>(ring: SessionsView<A, I>, now: u64) -> bool {
    match ring.active {
        Some(session) => now - session.opened_at > SESSION_LIFETIME,
        None => true,
    }
}

/// Different slots have different numbers, and every number is a place on the
/// ring.
pub proof fn lemma_slots_are_distinct(a: ActionRingSlot, b: ActionRingSlot)
    ensures
        a.index() < SLOT_COUNT,
        a.index() == b.index() ==> a == b,
{
}

/// A second press closes the ring: whichever slot the pointer is on, and
/// whether the overlay was told of the ring yet or not, an open ring with an
/// action on it is dismissed, and the overlay is told to show no slots, in a
/// session of a new number.
pub proof fn lemma_second_press_closes_the_ring<A, I>(
    ring: SessionsView<A, I>,
    session: SessionView<A, I>,
    slot: u8,
    now: u64,
    later: u64,
)
    requires
        live(ring, session, now),
        session.actions.dom().finite(),
        session.actions.contains_key(slot),
        later - now <= SESSION_LIFETIME,
    ensures
        ({
            let (after, dismissed) = dismissal(ring, now);
            &&& dismissed
            &&& after.next_session != ring.next_session
            &&& after.active matches Some(closing) && {
                &&& closing.pending
                &&& closing.invocation.session_id == ring.next_session
                &&& closing.invocation.slots.dom() == Set::<u8>::empty()
                &&& closing.actions.dom() == Set::<u8>::empty()
            }
            &&& told(after, later).1 matches Some(invocation) && {
                &&& invocation.session_id == ring.next_session
                &&& invocation.slots.dom() == Set::<u8>::empty()
            }
            &&& ids_in_order(ring) ==> after.active->0.invocation.session_id
                > session.invocation.session_id
        }),
{
    assert(session.actions.dom().contains(slot));
    if session.actions.dom().len() == 0 {
        assert(session.actions.dom() =~= Set::empty());
    }
    assert(Map::<u8, A>::empty().dom() =~= Set::<u8>::empty());
}

/// A press with no ring open dismisses nothing and leaves nothing behind, so
/// that it can open one; a ring that is only there to be closed counts as none.
pub proof fn lemma_first_press_dismisses_nothing<A, I>(ring: SessionsView<A, I>, now: u64)
    requires
        nothing_live(ring, now) || (ring.active matches Some(session) && session.actions.dom()
            == Set::<u8>::empty()),
    ensures
        !dismissal(ring, now).1,
        dismissal(ring, now).0.active is None,
        dismissal(ring, now).0.next_session == ring.next_session,
{
}

/// The overlay is told of a new ring once, in full: every filled slot with the
/// label and the icon that the user chose, or the action's own, and no other.
pub proof fn lemma_new_ring_is_told_once<A, I: Copy>(
    ring: SessionsView<A, I>,
    spec: ActionRingSessionSpec<A, I>,
    now: u64,
    asked: u64,
    again: u64,
)
    requires
        asked - now <= SESSION_LIFETIME,
    ensures
        ({
            let (after, invocation) = told(begun(ring, spec, now), asked);
            let layout = spec.layout@;
            &&& invocation matches Some(invocation) && {
                &&& invocation.session_id == ring.next_session
                &&& invocation.language == spec.language
                &&& forall|slot: u8| #[trigger]
                    invocation.slots.contains_key(slot) <==> layout.contains_key(slot)
                &&& forall|slot: u8| #[trigger]
                    invocation.slots.contains_key(slot) ==> {
                        let entry = layout[slot];
                        let shown = invocation.slots[slot];
                        &&& entry.custom_label is None ==> shown.label == entry.label
                            && !shown.literal
                        &&& entry.custom_label matches Some(label) ==> shown.label == label
                            && shown.literal
                        &&& entry.custom_icon is None ==> shown.icon == entry.icon
                        &&& entry.custom_icon matches Some(icon) ==> shown.icon == icon
                    }
            }
            &&& told(after, again).1 is None
        }),
{
}

/// Being told changes nothing of a ring but that it was told: commands are
/// answered as before, and a ring that has yet to be told is not lost to one
/// that is asked for too early.
pub proof fn lemma_telling_leaves_the_ring_open<A, I>(
    ring: SessionsView<A, I>,
    session: SessionView<A, I>,
    session_id: u64,
    slot: ActionRingSlot,
    asked: u64,
    now: u64,
)
    requires
        live(ring, session, asked),
    ensures
        ({
            let (after, invocation) = told(ring, asked);
            &&& invocation == if session.pending {
                Some(session.invocation)
            } else {
                None
            }
            &&& after.active matches Some(open) && open == (SessionView {
                pending: false,
                ..session
            })
            &&& after.next_session == ring.next_session
            &&& hover_answer(after, session_id, slot, now) == hover_answer(
                ring,
                session_id,
                slot,
                now,
            )
            &&& activate_answer(after, session_id, slot, now) == activate_answer(
                ring,
                session_id,
                slot,
                now,
            )
        }),
{
}

/// Moving onto a filled slot of the open ring is felt on the ring's device
/// exactly where the slot is not the one under the pointer already, and from
/// then on it is; nothing else changes.
pub proof fn lemma_moving_onto_a_slot_is_felt<A, I>(
    ring: SessionsView<A, I>,
    session: SessionView<A, I>,
    slot: ActionRingSlot,
    now: u64,
)
    requires
        live(ring, session, now),
        session.actions.contains_key(slot.index()),
    ensures
        ({
            let id = session.invocation.session_id;
            let after = hovered(ring, id, slot, now);
            &&& hover_answer(ring, id, slot, now) matches Ok(felt) && {
                &&& felt is Some <==> session.hovered != Some(slot)
                &&& felt matches Some(felt) ==> felt.haptic_route == session.haptic_route
            }
            &&& after.next_session == ring.next_session
            &&& after.active == Some(SessionView { hovered: Some(slot), ..session })
        }),
{
}

/// Every move from slot to slot is felt, back and forth as well.
pub proof fn lemma_every_move_is_felt<A, I>(
    ring: SessionsView<A, I>,
    session: SessionView<A, I>,
    from: ActionRingSlot,
    onto: ActionRingSlot,
    now: u64,
    later: u64,
)
    requires
        live(ring, session, now),
        live(ring, session, later),
        session.actions.contains_key(from.index()),
        session.actions.contains_key(onto.index()),
        from != onto,
    ensures
        ({
            let id = session.invocation.session_id;
            let first = hovered(ring, id, from, now);
            let second = hovered(first, id, onto, later);
            &&& hover_answer(first, id, onto, later) matches Ok(Some(_))
            &&& hover_answer(second, id, from, later) matches Ok(Some(_))
        }),
{
}

/// A command for an empty slot is refused and leaves the ring as it is, so
/// that another slot can still be picked.
pub proof fn lemma_empty_slot_leaves_the_ring_open<A, I>(
    ring: SessionsView<A, I>,
    session: SessionView<A, I>,
    slot: ActionRingSlot,
    now: u64,
)
    requires
        live(ring, session, now),
        !session.actions.contains_key(slot.index()),
    ensures
        ({
            let id = session.invocation.session_id;
            &&& hover_answer(ring, id, slot, now) == Err::<Option<ActionRingHover>, ActionRingCommandError>(
                ActionRingCommandError::SlotEmpty,
            )
            &&& activate_answer(ring, id, slot, now) == Err::<ActionRingActivation<A>, ActionRingCommandError>(
                ActionRingCommandError::SlotEmpty,
            )
            &&& hovered(ring, id, slot, now) == ring
            &&& activated(ring, id, slot, now) == ring
        }),
{
}

/// A pick returns the action of its slot for the ring's device, whatever the
/// pointer is on and whether or not the overlay was told, and closes the ring.
pub proof fn lemma_pick_returns_the_action<A, I>(
    ring: SessionsView<A, I>,
    session: SessionView<A, I>,
    slot: ActionRingSlot,
    now: u64,
)
    requires
        live(ring, session, now),
        session.actions.contains_key(slot.index()),
    ensures
        ({
            let id = session.invocation.session_id;
            &&& activate_answer(ring, id, slot, now) matches Ok(picked) && {
                &&& picked.action == session.actions[slot.index()]
                &&& picked.device_key == session.device_key
                &&& picked.haptic_route == session.haptic_route
            }
            &&& activated(ring, id, slot, now).active is None
            &&& activated(ring, id, slot, now).next_session == ring.next_session
        }),
{
}

/// Where the pointer has been makes no difference to what a pick returns.
pub proof fn lemma_hovering_does_not_change_a_pick<A, I>(
    ring: SessionsView<A, I>,
    session_id: u64,
    passed: ActionRingSlot,
    slot: ActionRingSlot,
    earlier: u64,
    now: u64,
)
    requires
        earlier <= now,
    ensures
        activate_answer(hovered(ring, session_id, passed, earlier), session_id, slot, now)
            == activate_answer(ring, session_id, slot, now),
{
}

/// A command for a session that is not the open one is refused, and the open
/// one is none the worse for it.
pub proof fn lemma_stray_commands_are_refused<A, I>(
    ring: SessionsView<A, I>,
    session_id: u64,
    slot: ActionRingSlot,
    now: u64,
)
    requires
        nothing_live(ring, now) || ring.active->0.invocation.session_id != session_id,
    ensures
        hover_answer(ring, session_id, slot, now) == Err::<Option<ActionRingHover>, ActionRingCommandError>(
            ActionRingCommandError::SessionNotFound,
        ),
        activate_answer(ring, session_id, slot, now) == Err::<ActionRingActivation<A>, ActionRingCommandError>(
            ActionRingCommandError::SessionNotFound,
        ),
        nothing_live(ring, now) ==> hovered(ring, session_id, slot, now).active is None
            && activated(ring, session_id, slot, now).active is None,
        !nothing_live(ring, now) ==> hovered(ring, session_id, slot, now) == ring && activated(
            ring,
            session_id,
            slot,
            now,
        ) == ring,
        hovered(ring, session_id, slot, now).next_session == ring.next_session,
        activated(ring, session_id, slot, now).next_session == ring.next_session,
{
}

/// Closing a session closes it for good where it is the open one, and changes
/// nothing where it is not.
pub proof fn lemma_cancel_closes_its_own_session<A, I>(
    ring: SessionsView<A, I>,
    session_id: u64,
    slot: ActionRingSlot,
    later: u64,
)
    ensures
        ({
            let after = closed_session(ring, session_id);
            let own = ring.active matches Some(session) && session.invocation.session_id
                == session_id;
            &&& after.next_session == ring.next_session
            &&& own ==> after.active is None
            &&& !own ==> after == ring
            &&& activate_answer(after, session_id, slot, later) is Err
            &&& told(after, later).1 is Some ==> !own
        }),
{
}

/// A new ring takes the place of any other under a number that no open session
/// has, with nothing hovered and its whole time before it.
pub proof fn lemma_new_ring_starts_afresh<A, I: Copy>(
    ring: SessionsView<A, I>,
    spec: ActionRingSessionSpec<A, I>,
    now: u64,
)
    ensures
        ({
            let after = begun(ring, spec, now);
            &&& after.active matches Some(session) && {
                &&& session.invocation.session_id == ring.next_session
                &&& session.hovered is None
                &&& session.opened_at == now
                &&& session.device_key == spec.device_key
                &&& session.haptic_route == spec.haptic_route
                &&& forall|slot: u8| #[trigger]
                    session.actions.contains_key(slot) <==> spec.layout@.contains_key(slot)
                &&& forall|slot: u8| #[trigger]
                    session.actions.contains_key(slot) ==> session.actions[slot]
                        == spec.layout@[slot].action
            }
            &&& ring.next_session < u64::MAX ==> after.next_session == ring.next_session + 1
            &&& id_after(ring.next_session) != ring.next_session
        }),
{
}

/// A ring is open for its whole time, to the last moment, and not a moment
/// longer.
pub proof fn lemma_ring_is_open_for_its_whole_time<A, I>(
    ring: SessionsView<A, I>,
    session: SessionView<A, I>,
    slot: ActionRingSlot,
    now: u64,
)
    requires
        ring.active == Some(session),
        session.actions.contains_key(slot.index()),
    ensures
        activate_answer(ring, session.invocation.session_id, slot, now) is Ok <==> now
            <= session.opened_at + SESSION_LIFETIME,
        hover_answer(ring, session.invocation.session_id, slot, now) is Ok <==> now
            <= session.opened_at + SESSION_LIFETIME,
{
}

/// Only the newest feel waits, on the device that it is for; one without a
/// device changes nothing.
pub proof fn lemma_newest_feel_waits(
    before: Option<HapticRequest>,
    route: DeviceRoute,
    waveform: HapticWaveform,
)
    ensures
        felt(before, Some(route), waveform) matches Some(request) && request.route == route
            && request.waveform == waveform,
        felt(before, None, waveform) == before,
{
}

/// Every filled slot of a layout is shown and does its own action, and no other
/// slot is. The user's own label and icon stand before the action's.
pub proof fn lemma_slots_are_shown_as_laid_out<A, I>(
    layout: Map<u8, ActionRingEntry<A, I>>,
    slot: u8,
)
    ensures
        shown_slots(layout).contains_key(slot) <==> layout.contains_key(slot),
        slot_actions(layout).contains_key(slot) <==> layout.contains_key(slot),
        layout.contains_key(slot) ==> ({
            let entry = layout[slot];
            let shown = shown_slots(layout)[slot];
            &&& slot_actions(layout)[slot] == entry.action
            &&& entry.custom_label is None ==> shown.label == entry.label && !shown.literal
            &&& entry.custom_label is Some ==> shown.label == entry.custom_label->0 && shown.literal
            &&& entry.custom_icon is None ==> shown.icon == entry.icon
            &&& entry.custom_icon is Some ==> shown.icon == entry.custom_icon->0
        }),
{
}

} // verus!
