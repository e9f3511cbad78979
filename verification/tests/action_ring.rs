//! Actions Ring sessions, from the press of the trigger to a pick.

use openlogi::action_ring::{
    ActionRingCommandError, ActionRingEntry, ActionRingHover, ActionRingInvocation,
    ActionRingLayout, ActionRingManager, ActionRingPresentation, ActionRingSessionSpec,
    ActionRingSlot, PollStep, PollWait, DISPLAY_LIFETIME, SESSION_LIFETIME,
};
use openlogi::haptics::{HapticRequest, HapticWaveform, RingHapticPlayer};
use openlogi::ring_server::{action_ring_activate, action_ring_hover};
use openlogi::route::DeviceRoute;

#[derive(Debug, Clone, Copy, PartialEq, Eq)]
enum Action {
    Cut,
    Copy,
}

#[derive(Debug, Clone, Copy, PartialEq, Eq)]
enum Icon {
    Scissors,
    Pages,
    Keyboard,
}

const SECOND: u64 = 1_000_000_000;

fn layout() -> ActionRingLayout<Action, Icon> {
    let mut layout = ActionRingLayout::new();
    layout.set(
        ActionRingSlot::Top,
        ActionRingEntry {
            action: Action::Cut,
            label: "Cut".to_string(),
            icon: Icon::Scissors,
            custom_label: None,
            custom_icon: None,
        },
    );
    layout.set(
        ActionRingSlot::TopLeft,
        ActionRingEntry {
            action: Action::Copy,
            label: "Copy".to_string(),
            icon: Icon::Pages,
            custom_label: None,
            custom_icon: None,
        },
    );
    layout
}

fn spec() -> ActionRingSessionSpec<Action, Icon> {
    ActionRingSessionSpec {
        device_key: "mouse-a".to_string(),
        haptic_route: None,
        layout: layout(),
        language: None,
    }
}

fn spec_with_haptics() -> ActionRingSessionSpec<Action, Icon> {
    ActionRingSessionSpec {
        haptic_route: Some(direct_route()),
        ..spec()
    }
}

fn direct_route() -> DeviceRoute {
    DeviceRoute::Direct {
        vendor_id: 0x046d,
        product_id: 0xb35b,
    }
}

fn manager() -> ActionRingManager<Action, Icon> {
    ActionRingManager::default()
}

fn polled(
    manager: &mut ActionRingManager<Action, Icon>,
    now: u64,
) -> Option<ActionRingInvocation<Icon>> {
    match manager.poll_round(PollWait::Fresh, now) {
        PollStep::Ready(invocation) => Some(invocation),
        _ => None,
    }
}

#[test]
fn invocation_is_queued_before_the_overlay_polls() {
    let mut manager = manager();
    let expected = manager.begin(spec(), 0);
    assert_eq!(polled(&mut manager, 0), Some(expected));
}

#[test]
fn invocation_contains_presentation_but_not_execution_payloads() {
    let mut manager = manager();
    let mut spec = spec();
    spec.layout.set_icon(ActionRingSlot::Top, Some(Icon::Keyboard));
    spec.language = Some("fr".to_string());
    let invocation = manager.begin(spec, 0);
    assert_eq!(
        invocation.slots[&ActionRingSlot::Top.index()],
        ActionRingPresentation {
            label: "Cut".to_string(),
            literal: false,
            icon: Icon::Keyboard,
        }
    );
    assert_eq!(invocation.language.as_deref(), Some("fr"));
}

#[test]
fn second_trigger_press_dismisses_and_third_reopens() {
    let mut manager = manager();

    assert!(!manager.dismiss_active(0));
    let opened = manager.begin(spec(), 0);
    assert_eq!(polled(&mut manager, 0), Some(opened.clone()));

    assert!(manager.dismiss_active(0));
    let dismissal = polled(&mut manager, 0).expect("dismissal queued");
    assert!(dismissal.slots.is_empty());
    assert_ne!(dismissal.session_id, opened.session_id);

    assert!(!manager.dismiss_active(0));
    let reopened = manager.begin(spec(), 0);
    assert!(!reopened.slots.is_empty());

    manager.cancel(dismissal.session_id);
    assert!(manager.dismiss_active(0));
}

#[test]
fn custom_slot_labels_override_the_action_label() {
    let mut manager = manager();
    let mut spec = spec();
    spec.layout
        .set_label(ActionRingSlot::Top, Some("Copy Invoice".to_string()));
    let invocation = manager.begin(spec, 0);
    assert_eq!(
        invocation.slots[&ActionRingSlot::Top.index()].label,
        "Copy Invoice"
    );
    assert!(invocation.slots[&ActionRingSlot::Top.index()].literal);
}

#[test]
fn activation_consumes_the_session() {
    let mut manager = manager();
    let invocation = manager.begin(spec(), 0);
    let activation = manager
        .activate(invocation.session_id, ActionRingSlot::Top, 0)
        .unwrap_or_else(|error| panic!("{error:?}"));
    assert_eq!(activation.device_key, "mouse-a");
    assert_eq!(activation.action, Action::Cut);
    assert!(matches!(
        manager.activate(invocation.session_id, ActionRingSlot::Top, 0),
        Err(ActionRingCommandError::SessionNotFound)
    ));
}

#[test]
fn repeated_hover_is_deduplicated() {
    let mut manager = manager();
    let invocation = manager.begin(spec(), 0);
    assert!(manager
        .hover(invocation.session_id, ActionRingSlot::Top, 0)
        .is_ok_and(|hover| hover.is_some()));
    assert_eq!(
        manager.hover(invocation.session_id, ActionRingSlot::Top, 0),
        Ok(None)
    );
}

#[test]
fn cancellation_discards_an_unclaimed_invocation() {
    let mut manager = manager();
    let invocation = manager.begin(spec(), 0);
    manager.cancel(invocation.session_id);
    assert_eq!(manager.take_pending(0), None);
}

#[test]
fn replacement_invalidates_the_previous_session() {
    let mut manager = manager();
    let first = manager.begin(spec(), 0);
    let second = manager.begin(spec(), 0);
    assert!(matches!(
        manager.activate(first.session_id, ActionRingSlot::Top, 0),
        Err(ActionRingCommandError::SessionNotFound)
    ));
    assert!(manager
        .activate(second.session_id, ActionRingSlot::Top, 0)
        .is_ok());
}

#[test]
fn expired_session_rejects_interaction() {
    let mut manager = manager();
    let invocation = manager.begin(spec(), 0);
    let later = SESSION_LIFETIME + SECOND;

    assert!(matches!(
        manager.activate(invocation.session_id, ActionRingSlot::Top, later),
        Err(ActionRingCommandError::SessionNotFound)
    ));
    assert_eq!(manager.take_pending(later), None);
}

#[test]
fn a_session_is_open_for_as_long_as_the_ring_shows() {
    let mut manager = manager();
    let invocation = manager.begin(spec(), 0);
    assert!(manager
        .activate(invocation.session_id, ActionRingSlot::Top, DISPLAY_LIFETIME)
        .is_ok());

    let invocation = manager.begin(spec(), 0);
    assert!(manager
        .activate(invocation.session_id, ActionRingSlot::Top, SESSION_LIFETIME)
        .is_ok());
}

#[test]
fn an_empty_slot_refuses_and_keeps_the_session() {
    let mut manager = manager();
    let invocation = manager.begin(spec(), 0);
    assert_eq!(
        manager.hover(invocation.session_id, ActionRingSlot::Right, 0),
        Err(ActionRingCommandError::SlotEmpty)
    );
    assert_eq!(
        manager
            .activate(invocation.session_id, ActionRingSlot::Right, 0)
            .err(),
        Some(ActionRingCommandError::SlotEmpty)
    );
    assert!(manager
        .activate(invocation.session_id, ActionRingSlot::TopLeft, 0)
        .is_ok());
}

#[test]
fn a_hover_carries_the_route_of_the_device() {
    let mut manager = manager();
    let invocation = manager.begin(spec_with_haptics(), 0);
    assert_eq!(
        manager.hover(invocation.session_id, ActionRingSlot::TopLeft, 0),
        Ok(Some(ActionRingHover {
            haptic_route: Some(direct_route())
        }))
    );
}

#[test]
fn a_held_poll_waits_and_gives_up() {
    let mut manager = manager();
    assert_eq!(
        manager.poll_round(PollWait::Fresh, 0),
        PollStep::Wait
    );
    let invocation = manager.begin(spec(), 0);
    assert_eq!(
        manager.poll_round(PollWait::Changed, 0),
        PollStep::Ready(invocation)
    );
    assert_eq!(
        manager.poll_round(PollWait::Changed, 0),
        PollStep::Wait
    );
    assert_eq!(
        manager.poll_round(PollWait::Elapsed, 0),
        PollStep::GiveUp
    );
}

#[test]
fn commands_that_count_are_felt() {
    let mut manager = manager();
    let mut haptics = RingHapticPlayer::new();
    let invocation = manager.begin(spec_with_haptics(), 0);
    let id = invocation.session_id;

    assert_eq!(
        action_ring_hover(&mut manager, &mut haptics, id, ActionRingSlot::Top, 0),
        Ok(())
    );
    assert_eq!(
        haptics.take(),
        Some(HapticRequest {
            route: direct_route(),
            waveform: HapticWaveform::SubtleCollision
        })
    );
    assert_eq!(
        action_ring_hover(&mut manager, &mut haptics, id, ActionRingSlot::Top, 0),
        Ok(())
    );
    assert_eq!(haptics.take(), None, "a pointer at rest plays nothing");

    assert_eq!(
        action_ring_activate(&mut manager, &mut haptics, id + 1, ActionRingSlot::Top, 0).err(),
        Some(ActionRingCommandError::SessionNotFound)
    );
    assert_eq!(haptics.take(), None, "a refused command is not felt");

    let activation =
        action_ring_activate(&mut manager, &mut haptics, id, ActionRingSlot::Top, 0).unwrap();
    assert_eq!(activation.action, Action::Cut);
    assert_eq!(
        haptics.take(),
        Some(HapticRequest {
            route: direct_route(),
            waveform: HapticWaveform::DampStateChange
        })
    );
}

#[test]
fn only_the_newest_feel_waits() {
    let mut haptics = RingHapticPlayer::new();
    haptics.play(Some(direct_route()), HapticWaveform::SubtleCollision);
    haptics.play(Some(direct_route()), HapticWaveform::DampStateChange);
    haptics.play(None, HapticWaveform::SubtleCollision);
    assert_eq!(
        haptics.take(),
        Some(HapticRequest {
            route: direct_route(),
            waveform: HapticWaveform::DampStateChange
        })
    );
    assert_eq!(haptics.take(), None);
}
