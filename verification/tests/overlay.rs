//! The overlay's commands and the sender that delivers them.

use openlogi::action_ring::{ActionRingPresentation, ActionRingSlot, DISPLAY_LIFETIME};
use openlogi::overlay::{
    coalesce_command, command_deadline, merge_pending, poll_step, retry_before, slot_label,
    CommandSender, HoverChange, LabelText, OverlayCommand, Pending, PollAction, PollEvent,
    RingPointer, SenderAction, SenderEvent, Stage, POLL_DEADLINE, RECONNECT_DELAY, RETRY_DELAY,
};

const SECOND: u64 = 1_000_000_000;

#[test]
fn activation_takes_priority_over_queued_hover_updates() {
    let hover = OverlayCommand::Hover {
        session_id: 1,
        slot: ActionRingSlot::Top,
    };
    let activation = OverlayCommand::Activate {
        session_id: 1,
        slot: ActionRingSlot::Right,
    };
    assert!(matches!(
        coalesce_command(hover, activation),
        OverlayCommand::Activate {
            slot: ActionRingSlot::Right,
            ..
        }
    ));
    assert!(matches!(
        coalesce_command(activation, hover),
        OverlayCommand::Activate { .. }
    ));
}

#[test]
fn newer_activation_supersedes_a_stale_retry_immediately() {
    let stale = OverlayCommand::Cancel { session_id: 1 };
    let replacement = OverlayCommand::Activate {
        session_id: 2,
        slot: ActionRingSlot::Right,
    };
    let mut sender = CommandSender {
        connected: false,
        stage: Stage::Delaying(Pending {
            command: stale,
            deadline: Some(DISPLAY_LIFETIME),
        }),
    };
    let action = sender.step(SenderEvent::Received(replacement), &[], SECOND);
    assert_eq!(
        sender.stage,
        Stage::Connecting(Pending {
            command: replacement,
            deadline: Some(SECOND + DISPLAY_LIFETIME),
        })
    );
    assert_eq!(
        action,
        SenderAction::Connect {
            deadline: Some(SECOND + DISPLAY_LIFETIME)
        }
    );
}

#[test]
fn newer_activation_supersedes_a_stalled_terminal_request() {
    let stale = OverlayCommand::Cancel { session_id: 1 };
    let replacement = OverlayCommand::Activate {
        session_id: 2,
        slot: ActionRingSlot::Right,
    };
    let mut sender = CommandSender::new();
    sender.step(SenderEvent::Received(stale), &[], 0);
    assert_eq!(
        sender.step(SenderEvent::Connected(true), &[], 0),
        SenderAction::Send {
            command: stale,
            deadline: Some(DISPLAY_LIFETIME)
        }
    );
    assert_eq!(
        sender.step(SenderEvent::Received(replacement), &[], SECOND),
        SenderAction::Send {
            command: replacement,
            deadline: Some(SECOND + DISPLAY_LIFETIME)
        }
    );
    assert_eq!(
        sender.step(SenderEvent::Sent(true), &[], SECOND),
        SenderAction::AwaitCommand
    );
    assert_eq!(
        sender.step(SenderEvent::Closed, &[], SECOND),
        SenderAction::Stop
    );
}

#[test]
fn stalled_hover_stops_when_the_command_channel_closes() {
    let hover = OverlayCommand::Hover {
        session_id: 1,
        slot: ActionRingSlot::Top,
    };
    let mut sender = CommandSender::new();
    assert_eq!(
        sender.step(SenderEvent::Received(hover), &[], 0),
        SenderAction::Connect { deadline: None }
    );
    assert_eq!(
        sender.step(SenderEvent::Connected(true), &[], 0),
        SenderAction::Send {
            command: hover,
            deadline: None
        }
    );
    assert_eq!(
        sender.step(SenderEvent::Closed, &[], 0),
        SenderAction::Stop
    );
}

#[test]
fn only_terminal_commands_are_retryable() {
    let hover = OverlayCommand::Hover {
        session_id: 1,
        slot: ActionRingSlot::Top,
    };
    let activation = OverlayCommand::Activate {
        session_id: 1,
        slot: ActionRingSlot::Top,
    };
    let cancellation = OverlayCommand::Cancel { session_id: 1 };
    assert!(!hover.is_terminal());
    assert!(activation.is_terminal());
    assert!(cancellation.is_terminal());
}

#[test]
fn terminal_retries_last_only_until_the_session_deadline() {
    let now = 10 * SECOND;
    assert!(retry_before(Some(now + SECOND), now));
    let past = now - SECOND;
    assert!(!retry_before(Some(past), now));
    assert!(!retry_before(None, now));
}

#[test]
fn a_deadline_is_given_to_terminal_commands_only() {
    let hover = OverlayCommand::Hover {
        session_id: 1,
        slot: ActionRingSlot::Top,
    };
    let cancel = OverlayCommand::Cancel { session_id: 1 };
    assert_eq!(command_deadline(hover, SECOND), None);
    assert_eq!(
        command_deadline(cancel, SECOND),
        Some(SECOND + DISPLAY_LIFETIME)
    );
    let pending = Pending {
        command: cancel,
        deadline: Some(5),
    };
    assert_eq!(merge_pending(pending, hover, SECOND), pending);
    assert_eq!(
        merge_pending(pending, cancel, SECOND),
        pending,
        "the same command again keeps its time"
    );
}

#[test]
fn a_failed_terminal_command_waits_and_goes_again() {
    let cancel = OverlayCommand::Cancel { session_id: 1 };
    let mut sender = CommandSender::new();
    sender.step(SenderEvent::Received(cancel), &[], 0);
    sender.step(SenderEvent::Connected(true), &[], 0);
    assert_eq!(
        sender.step(SenderEvent::Sent(false), &[], SECOND),
        SenderAction::Delay(RETRY_DELAY)
    );
    assert!(!sender.connected, "a failed send gives the connection up");
    assert_eq!(
        sender.step(SenderEvent::Delayed, &[], 2 * SECOND),
        SenderAction::Connect {
            deadline: Some(DISPLAY_LIFETIME)
        }
    );
    assert_eq!(
        sender.step(SenderEvent::Connected(false), &[], DISPLAY_LIFETIME),
        SenderAction::AwaitCommand,
        "no retry at the deadline"
    );
}

#[test]
fn a_failed_hover_is_dropped() {
    let hover = OverlayCommand::Hover {
        session_id: 1,
        slot: ActionRingSlot::Top,
    };
    let mut sender = CommandSender::new();
    sender.step(SenderEvent::Received(hover), &[], 0);
    assert_eq!(
        sender.step(SenderEvent::Connected(false), &[], 0),
        SenderAction::AwaitCommand
    );
    assert_eq!(sender.stage, Stage::Idle);
}

#[test]
fn an_attempt_goes_on_when_nothing_newer_counts() {
    let hover = OverlayCommand::Hover {
        session_id: 1,
        slot: ActionRingSlot::Top,
    };
    let cancel = OverlayCommand::Cancel { session_id: 1 };
    let mut sender = CommandSender::new();
    sender.step(SenderEvent::Received(hover), &[cancel, hover], 0);
    assert_eq!(
        sender.stage,
        Stage::Connecting(Pending {
            command: cancel,
            deadline: Some(DISPLAY_LIFETIME)
        })
    );
    assert_eq!(
        sender.step(SenderEvent::Received(hover), &[hover], SECOND),
        SenderAction::KeepGoing
    );
    assert_eq!(
        sender.step(SenderEvent::Expired, &[], DISPLAY_LIFETIME),
        SenderAction::AwaitCommand
    );
}

#[test]
fn closing_during_a_delay_drops_the_command() {
    let mut sender = CommandSender {
        connected: false,
        stage: Stage::Delaying(Pending {
            command: OverlayCommand::Cancel { session_id: 1 },
            deadline: Some(DISPLAY_LIFETIME),
        }),
    };
    assert_eq!(
        sender.step(SenderEvent::Closed, &[], 0),
        SenderAction::AwaitCommand
    );
    assert_eq!(
        sender.step(SenderEvent::Closed, &[], 0),
        SenderAction::Stop
    );
}

#[test]
fn the_poll_reconnects_and_stops() {
    assert_eq!(poll_step(PollEvent::Start), PollAction::Connect);
    assert_eq!(
        poll_step(PollEvent::Connected(false)),
        PollAction::Reconnect(RECONNECT_DELAY)
    );
    assert_eq!(
        poll_step(PollEvent::Connected(true)),
        PollAction::Poll(POLL_DEADLINE)
    );
    assert_eq!(
        poll_step(PollEvent::Invocation { handed_on: true }),
        PollAction::Poll(POLL_DEADLINE)
    );
    assert_eq!(
        poll_step(PollEvent::Invocation { handed_on: false }),
        PollAction::Stop
    );
    assert_eq!(
        poll_step(PollEvent::Nothing),
        PollAction::Poll(POLL_DEADLINE)
    );
    assert_eq!(poll_step(PollEvent::Disconnected), PollAction::Connect);
}

#[test]
fn the_pointer_reports_each_slot_it_enters() {
    let mut ring = RingPointer::new(7);
    assert!(!ring.draw());
    assert!(ring.draw());
    assert_eq!(
        ring.hover(ActionRingSlot::Top, true),
        HoverChange {
            repaint: true,
            command: Some(OverlayCommand::Hover {
                session_id: 7,
                slot: ActionRingSlot::Top
            })
        }
    );
    let nothing = HoverChange {
        repaint: false,
        command: None,
    };
    assert_eq!(ring.hover(ActionRingSlot::Top, true), nothing);
    assert_eq!(ring.hover(ActionRingSlot::Left, false), nothing);
    assert_eq!(
        ring.hover(ActionRingSlot::Top, false),
        HoverChange {
            repaint: true,
            command: None
        }
    );
    assert_eq!(ring.hovered, None);
    assert_eq!(
        ring.click(ActionRingSlot::Left),
        OverlayCommand::Activate {
            session_id: 7,
            slot: ActionRingSlot::Left
        }
    );
    assert_eq!(ring.cancel(), OverlayCommand::Cancel { session_id: 7 });
}

#[test]
fn a_label_of_the_users_own_is_never_translated() {
    let presentation = |literal| ActionRingPresentation {
        label: "Copy".to_string(),
        literal,
        icon: 0u8,
    };
    let key = || Some("action.copy".to_string());
    assert_eq!(
        slot_label(&presentation(true), key()),
        LabelText::Verbatim("Copy".to_string())
    );
    assert_eq!(
        slot_label(&presentation(false), key()),
        LabelText::Translated("action.copy".to_string())
    );
    assert_eq!(
        slot_label(&presentation(false), None),
        LabelText::Verbatim("Copy".to_string())
    );
}

/// Hand `command` to a sender and answer whatever it does, at once, until it is
/// at rest; how often it sent and paused, and when it came to rest.
fn deliver(command: OverlayCommand, connects: bool, answered_at: Option<u64>) -> (u32, u32, u64) {
    let mut sender = CommandSender::new();
    let (mut sent, mut pauses, mut now) = (0, 0, SECOND);
    let mut action = sender.step(SenderEvent::Received(command), &[], now);
    loop {
        let event = match action {
            SenderAction::Connect { .. } => SenderEvent::Connected(connects),
            SenderAction::Send { command: out, .. } => {
                assert_eq!(out, command);
                sent += 1;
                SenderEvent::Sent(answered_at.is_some_and(|at| now >= at))
            }
            SenderAction::Delay(pause) => {
                assert_eq!(pause, RETRY_DELAY);
                pauses += 1;
                now += pause;
                SenderEvent::Delayed
            }
            SenderAction::AwaitCommand => return (sent, pauses, now),
            SenderAction::KeepGoing | SenderAction::Stop => unreachable!(),
        };
        action = sender.step(event, &[], now);
    }
}

#[test]
fn a_hover_is_sent_at_most_once() {
    let hover = OverlayCommand::Hover {
        session_id: 1,
        slot: ActionRingSlot::Left,
    };
    assert_eq!(deliver(hover, false, None), (0, 0, SECOND));
    assert_eq!(deliver(hover, true, None), (1, 0, SECOND));
    assert_eq!(deliver(hover, true, Some(0)), (1, 0, SECOND));
}

#[test]
fn a_terminal_command_is_retried_until_it_is_answered_or_its_time_is_up() {
    let cancel = OverlayCommand::Cancel { session_id: 1 };
    assert_eq!(deliver(cancel, true, Some(0)), (1, 0, SECOND));
    assert_eq!(
        deliver(cancel, true, Some(SECOND + 3 * RETRY_DELAY)),
        (4, 3, SECOND + 3 * RETRY_DELAY)
    );
    assert_eq!(
        deliver(cancel, true, None),
        (151, 150, SECOND + DISPLAY_LIFETIME)
    );
    assert_eq!(
        deliver(cancel, false, None),
        (0, 150, SECOND + DISPLAY_LIFETIME)
    );
}

#[test]
fn a_command_is_held_until_its_time_is_up() {
    let cancel = OverlayCommand::Cancel { session_id: 3 };
    let mut sender = CommandSender::new();
    sender.step(SenderEvent::Received(cancel), &[], SECOND);
    let mut now = SECOND;
    let mut retries = 0;
    while sender.step(SenderEvent::Connected(false), &[], now) != SenderAction::AwaitCommand {
        now += SECOND;
        retries += 1;
        let action = sender.step(SenderEvent::Delayed, &[], now);
        assert_eq!(
            action,
            SenderAction::Connect {
                deadline: Some(SECOND + DISPLAY_LIFETIME)
            }
        );
    }
    assert_eq!(now, SECOND + DISPLAY_LIFETIME);
    assert_eq!(retries, DISPLAY_LIFETIME / SECOND);
}
