//! A command's whole way, from the moment it is taken up to its answer or its
//! end.
//!
//! The laws speak of a command that nothing disturbs: no other command arrives
//! behind it and the queue stays open.

use crate::action_ring::DISPLAY_LIFETIME;
use crate::overlay::{
    deadline_of, possible, stepped, CommandSender, OverlayCommand, Pending, SenderAction,
    SenderEvent, Stage, RETRY_DELAY,
};
use vstd::prelude::*;

verus! {

/// The sender, and what it does, once a command taken up at `taken` has met
/// `answers`, each with its time.
pub open spec fn handled(
    connected: bool,
    command: OverlayCommand,
    taken: u64,
    answers: Seq<(SenderEvent, u64)>,
) -> (CommandSender, SenderAction)
    decreases answers.len(),
{
    if answers.len() == 0 {
        stepped(
            CommandSender { connected, stage: Stage::Idle },
            SenderEvent::Received(command),
            Seq::empty(),
            taken,
        )
    } else {
        let (before, _) = handled(connected, command, taken, answers.drop_last());
        stepped(before, answers.last().0, Seq::empty(), answers.last().1)
    }
}

/// The time of the last answer, or when the command was taken up.
pub open spec fn time_of(taken: u64, answers: Seq<(SenderEvent, u64)>) -> u64 {
    if answers.len() == 0 {
        taken
    } else {
        answers.last().1
    }
}

/// Whether `answers` are answers that the command can meet, in the order of
/// their times and with nothing else in between.
pub open spec fn undisturbed(
    connected: bool,
    command: OverlayCommand,
    taken: u64,
    answers: Seq<(SenderEvent, u64)>,
) -> bool
    decreases answers.len(),
{
    answers.len() == 0 || {
        let earlier = answers.drop_last();
        let (event, at) = answers.last();
        &&& undisturbed(connected, command, taken, earlier)
        &&& possible(handled(connected, command, taken, earlier).0.stage, event, at)
        &&& !(event is Received)
        &&& !(event is Closed)
        &&& at >= time_of(taken, earlier)
    }
}

/// How often the command has been sent.
pub open spec fn times_sent(
    connected: bool,
    command: OverlayCommand,
    taken: u64,
    answers: Seq<(SenderEvent, u64)>,
) -> nat
    decreases answers.len(),
{
    let now: nat = if handled(connected, command, taken, answers).1 is Send {
        1
    } else {
        0
    };
    if answers.len() == 0 {
        now
    } else {
        times_sent(connected, command, taken, answers.drop_last()) + now
    }
}

/// How many pauses are over.
pub open spec fn pauses_over(answers: Seq<(SenderEvent, u64)>) -> nat
    decreases answers.len(),
{
    if answers.len() == 0 {
        0
    } else {
        let now: nat = if answers.last().0 is Delayed {
            1
        } else {
            0
        };
        pauses_over(answers.drop_last()) + now
    }
}

/// Whether every pause lasts as long as it was asked to.
pub open spec fn paced(taken: u64, answers: Seq<(SenderEvent, u64)>) -> bool
    decreases answers.len(),
{
    answers.len() == 0 || {
        &&& paced(taken, answers.drop_last())
        &&& answers.last().0 is Delayed ==> answers.last().1 >= time_of(taken, answers.drop_last())
            + RETRY_DELAY
    }
}

/// What follows an answer to a command with this deadline: a connection is
/// used, a failure is followed by a pause while there is time, a pause by a
/// new connection, and anything else by rest.
pub open spec fn follow_up(
    command: OverlayCommand,
    deadline: Option<u64>,
    event: SenderEvent,
    at: u64,
) -> SenderAction {
    match event {
        SenderEvent::Connected(true) => SenderAction::Send { command, deadline },
        SenderEvent::Connected(false) | SenderEvent::Sent(false) => if deadline matches Some(
            deadline,
        ) && at < deadline {
            SenderAction::Delay(RETRY_DELAY)
        } else {
            SenderAction::AwaitCommand
        },
        SenderEvent::Delayed => SenderAction::Connect { deadline },
        _ => SenderAction::AwaitCommand,
    }
}

/// What the sender is about, told from what it does.
proof fn lemma_stage_matches(
    connected: bool,
    command: OverlayCommand,
    taken: u64,
    answers: Seq<(SenderEvent, u64)>,
)
    requires
        undisturbed(connected, command, taken, answers),
    ensures
        ({
            let (sender, action) = handled(connected, command, taken, answers);
            let pending = Pending { command, deadline: deadline_of(command, taken) };
            &&& sender.wf()
            &&& sender.stage == match action {
                SenderAction::Connect { .. } => Stage::Connecting(pending),
                SenderAction::Send { .. } => Stage::Sending(pending),
                SenderAction::Delay(_) => Stage::Delaying(pending),
                _ => Stage::Idle,
            }
            &&& answers.len() == 0 ==> action == if connected {
                SenderAction::Send { command, deadline: pending.deadline }
            } else {
                SenderAction::Connect { deadline: pending.deadline }
            }
            &&& answers.len() > 0 ==> action == follow_up(
                command,
                pending.deadline,
                answers.last().0,
                answers.last().1,
            )
        }),
    decreases answers.len(),
{
    if answers.len() > 0 {
        lemma_stage_matches(connected, command, taken, answers.drop_last());
    }
}

/// The first thing done about a command is to send it over the connection at
/// hand, or to look for one.
pub proof fn lemma_command_is_taken_up_at_once(
    connected: bool,
    command: OverlayCommand,
    taken: u64,
)
    ensures
        handled(connected, command, taken, Seq::empty()).1 == if connected {
            SenderAction::Send { command, deadline: deadline_of(command, taken) }
        } else {
            SenderAction::Connect { deadline: deadline_of(command, taken) }
        },
{
}

/// Every answer has its follow-up, and a command that is at rest meets no
/// further answer: once answered it is never sent again.
pub proof fn lemma_every_answer_has_its_follow_up(
    connected: bool,
    command: OverlayCommand,
    taken: u64,
    answers: Seq<(SenderEvent, u64)>,
    next: (SenderEvent, u64),
)
    requires
        undisturbed(connected, command, taken, answers),
        answers.len() > 0,
    ensures
        handled(connected, command, taken, answers).1 == follow_up(
            command,
            deadline_of(command, taken),
            answers.last().0,
            answers.last().1,
        ),
        handled(connected, command, taken, answers).1 == SenderAction::AwaitCommand
            ==> !undisturbed(connected, command, taken, answers.push(next)),
{
    lemma_stage_matches(connected, command, taken, answers);
    assert(answers.push(next).drop_last() =~= answers);
}

/// A hover is sent at most once and never again: not at all where there is no
/// connection to be had, and a failure drops it.
pub proof fn lemma_hover_is_sent_at_most_once(
    connected: bool,
    command: OverlayCommand,
    taken: u64,
    answers: Seq<(SenderEvent, u64)>,
)
    requires
        command is Hover,
        undisturbed(connected, command, taken, answers),
    ensures
        times_sent(connected, command, taken, answers) <= 1,
        answers.len() > 0 && answers[0].0 == SenderEvent::Connected(false) ==> times_sent(
            connected,
            command,
            taken,
            answers,
        ) == 0,
        answers.len() > 0 && (answers.last().0 == SenderEvent::Connected(false)
            || answers.last().0 is Sent) ==> handled(connected, command, taken, answers).1
            == SenderAction::AwaitCommand,
        pauses_over(answers) == 0,
    decreases answers.len(),
{
    lemma_stage_matches(connected, command, taken, answers);
    if answers.len() > 0 {
        let earlier = answers.drop_last();
        lemma_hover_is_sent_at_most_once(connected, command, taken, earlier);
        lemma_stage_matches(connected, command, taken, earlier);
        lemma_hover_was_never_delayed(connected, command, taken, earlier);
        if earlier.len() > 0 {
            assert(earlier[0] == answers[0]);
        }
    }
}

/// While a hover is looking for a connection it has not been sent.
proof fn lemma_hover_was_never_delayed(
    connected: bool,
    command: OverlayCommand,
    taken: u64,
    answers: Seq<(SenderEvent, u64)>,
)
    requires
        command is Hover,
        undisturbed(connected, command, taken, answers),
    ensures
        !(handled(connected, command, taken, answers).1 is Delay),
        handled(connected, command, taken, answers).1 is Connect ==> answers.len() == 0
            && times_sent(connected, command, taken, answers) == 0,
        handled(connected, command, taken, answers).1 is Send && answers.len() > 0 ==> answers[0].0
            == SenderEvent::Connected(true),
    decreases answers.len(),
{
    lemma_stage_matches(connected, command, taken, answers);
    if answers.len() > 0 {
        let earlier = answers.drop_last();
        lemma_hover_was_never_delayed(connected, command, taken, earlier);
        lemma_stage_matches(connected, command, taken, earlier);
    }
}

/// A command that ends its session is not dropped before its time: it comes to
/// rest only once it is answered, or once the ring can no longer be showing.
pub proof fn lemma_terminal_command_is_retried(
    connected: bool,
    command: OverlayCommand,
    taken: u64,
    answers: Seq<(SenderEvent, u64)>,
)
    requires
        command.is_terminal(),
        taken + DISPLAY_LIFETIME <= u64::MAX,
        undisturbed(connected, command, taken, answers),
        answers.len() > 0,
    ensures
        ({
            let (event, at) = answers.last();
            let action = handled(connected, command, taken, answers).1;
            &&& action == SenderAction::AwaitCommand ==> event == SenderEvent::Sent(true) || at
                >= taken + DISPLAY_LIFETIME
            &&& action == SenderAction::AwaitCommand <==> {
                ||| event == SenderEvent::Sent(true)
                ||| event is Expired
                ||| (event == SenderEvent::Sent(false) || event == SenderEvent::Connected(false))
                    && at >= taken + DISPLAY_LIFETIME
            }
            &&& (event == SenderEvent::Sent(false) || event == SenderEvent::Connected(false)) && at
                < taken + DISPLAY_LIFETIME ==> action == SenderAction::Delay(RETRY_DELAY)
            &&& event is Delayed ==> action is Connect
        }),
{
    lemma_stage_matches(connected, command, taken, answers);
    lemma_stage_matches(connected, command, taken, answers.drop_last());
}

/// The count of sends keeps step with the pauses, and the clock with both.
proof fn lemma_pauses_take_time(
    connected: bool,
    command: OverlayCommand,
    taken: u64,
    answers: Seq<(SenderEvent, u64)>,
)
    requires
        command.is_terminal(),
        taken + DISPLAY_LIFETIME <= u64::MAX,
        undisturbed(connected, command, taken, answers),
        paced(taken, answers),
    ensures
        time_of(taken, answers) >= taken + pauses_over(answers) * RETRY_DELAY,
        times_sent(connected, command, taken, answers) <= pauses_over(answers) + 1,
        handled(connected, command, taken, answers).1 is Connect ==> times_sent(
            connected,
            command,
            taken,
            answers,
        ) <= pauses_over(answers),
        pauses_over(answers) > 0 ==> (pauses_over(answers) - 1) * RETRY_DELAY < DISPLAY_LIFETIME,
        handled(connected, command, taken, answers).1 is Delay ==> time_of(taken, answers) < taken
            + DISPLAY_LIFETIME,
    decreases answers.len(),
{
    lemma_stage_matches(connected, command, taken, answers);
    if answers.len() > 0 {
        let earlier = answers.drop_last();
        lemma_pauses_take_time(connected, command, taken, earlier);
        lemma_stage_matches(connected, command, taken, earlier);
    }
}

/// Retries come to an end: with pauses that last as long as they should, there
/// are no more of them than fit into the time that the ring may show, and at
/// most one send more.
pub proof fn lemma_retries_are_bounded(
    connected: bool,
    command: OverlayCommand,
    taken: u64,
    answers: Seq<(SenderEvent, u64)>,
)
    requires
        command.is_terminal(),
        taken + DISPLAY_LIFETIME <= u64::MAX,
        undisturbed(connected, command, taken, answers),
        paced(taken, answers),
    ensures
        pauses_over(answers) <= DISPLAY_LIFETIME / RETRY_DELAY,
        times_sent(connected, command, taken, answers) <= DISPLAY_LIFETIME / RETRY_DELAY + 1,
{
    lemma_pauses_take_time(connected, command, taken, answers);
}

} // verus!
