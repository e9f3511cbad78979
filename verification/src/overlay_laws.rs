//! No pick and no cancel is lost: what the sender of commands is left with,
//! told from the commands that arrived.

use crate::action_ring::{DISPLAY_LIFETIME, LONG_POLL_HOLD};
use crate::overlay::{
    coalesced_all, merged, merged_all, polled, stepped, CommandSender, OverlayCommand, Pending,
    PollAction, PollEvent, SenderAction, SenderEvent, Stage,
};
use vstd::prelude::*;

verus! {

/// Whether a command picks from its ring or closes it.
pub open spec fn ends_session(command: OverlayCommand) -> bool {
    command is Activate || command is Cancel
}

/// The commands that arrived with an event, oldest first.
pub open spec fn arrivals(event: SenderEvent, queued: Seq<OverlayCommand>) -> Seq<OverlayCommand> {
    match event {
        SenderEvent::Received(first) => seq![first] + queued,
        _ => queued,
    }
}

/// The command that is under way or waits to be tried again.
pub open spec fn waiting(stage: Stage) -> Option<Pending> {
    match stage {
        Stage::Connecting(pending) => Some(pending),
        Stage::Sending(pending) => Some(pending),
        Stage::Delaying(pending) => Some(pending),
        _ => None,
    }
}

/// Whether a command is being sent, or a connection looked for to send it.
pub open spec fn under_way(stage: Stage) -> bool {
    stage is Connecting || stage is Sending
}

/// What is done about a command that is taken up.
pub open spec fn take_up(connected: bool, pending: Pending) -> SenderAction {
    if connected {
        SenderAction::Send { command: pending.command, deadline: pending.deadline }
    } else {
        SenderAction::Connect { deadline: pending.deadline }
    }
}

/// Merging one command, and the rest after it, is merging them all.
proof fn lemma_merge_first(
    pending: Pending,
    first: OverlayCommand,
    queued: Seq<OverlayCommand>,
    now: u64,
)
    ensures
        merged_all(merged(pending, first, now), queued, now) == merged_all(
            pending,
            seq![first] + queued,
            now,
        ),
    decreases queued.len(),
{
    let all = seq![first] + queued;
    if queued.len() == 0 {
        assert(all =~= seq![first]);
        assert(all.drop_last() =~= Seq::empty());
        reveal_with_fuel(merged_all, 2);
    } else {
        lemma_merge_first(pending, first, queued.drop_last(), now);
        assert(all.drop_last() =~= seq![first] + queued.drop_last());
        assert(all.last() == queued.last());
    }
}

/// Of commands that all arrive behind a waiting one the last that ends its
/// session is left, or the newest where none does and the waiting one does not
/// either.
proof fn lemma_merged_all(pending: Pending, queued: Seq<OverlayCommand>, now: u64, k: int)
    requires
        -1 <= k < queued.len(),
        k >= 0 ==> ends_session(queued[k]),
        forall|j: int| k < j < queued.len() ==> #[trigger] queued[j] is Hover,
        now + DISPLAY_LIFETIME <= u64::MAX,
        pending.deadline is Some == ends_session(pending.command),
    ensures
        ({
            let after = merged_all(pending, queued, now);
            &&& k >= 0 ==> {
                let renewed = exists|j: int|
                    0 <= j <= k && ends_session(#[trigger] queued[j]) && queued[j]
                        != pending.command;
                &&& after.command == queued[k]
                &&& renewed ==> after.deadline == Some((now + DISPLAY_LIFETIME) as u64)
                &&& !renewed ==> after == pending
            }
            &&& k < 0 && ends_session(pending.command) ==> after == pending
            &&& k < 0 && !ends_session(pending.command) ==> after.deadline is None
                && after.command == if queued.len() == 0 {
                pending.command
            } else {
                queued.last()
            }
        }),
    decreases queued.len(),
{
    if queued.len() > 0 {
        let before = queued.drop_last();
        let last = queued.last();
        assert(last == queued[queued.len() - 1]);
        assert forall|j: int| 0 <= j < before.len() implies #[trigger] before[j] == queued[j] by {}
        if k < queued.len() - 1 {
            lemma_merged_all(pending, before, now, k);
            if k >= 0 {
                assert(before[k] == queued[k]);
                if exists|j: int|
                    0 <= j <= k && ends_session(#[trigger] queued[j]) && queued[j]
                        != pending.command {
                    let j = choose|j: int|
                        0 <= j <= k && ends_session(#[trigger] queued[j]) && queued[j]
                            != pending.command;
                    assert(before[j] == queued[j]);
                }
                if exists|j: int|
                    0 <= j <= k && ends_session(#[trigger] before[j]) && before[j]
                        != pending.command {
                    let j = choose|j: int|
                        0 <= j <= k && ends_session(#[trigger] before[j]) && before[j]
                            != pending.command;
                    assert(queued[j] == before[j]);
                }
            }
        } else {
            let m = last_ending(before);
            lemma_last_ending(before);
            lemma_merged_all(pending, before, now, m);
            let earlier = merged_all(pending, before, now);
            let renewed = exists|j: int|
                0 <= j <= k && ends_session(#[trigger] queued[j]) && queued[j] != pending.command;
            if m >= 0 {
                assert(before[m] == queued[m]);
                let renewed_before = exists|j: int|
                    0 <= j <= m && ends_session(#[trigger] before[j]) && before[j]
                        != pending.command;
                if renewed_before {
                    let j = choose|j: int|
                        0 <= j <= m && ends_session(#[trigger] before[j]) && before[j]
                            != pending.command;
                    assert(queued[j] == before[j]);
                    assert(renewed);
                } else if renewed {
                    let j = choose|j: int|
                        0 <= j <= k && ends_session(#[trigger] queued[j]) && queued[j]
                            != pending.command;
                    if j < k {
                        assert(before[j] == queued[j]);
                        assert(j <= m);
                    }
                }
            } else if renewed {
                let j = choose|j: int|
                    0 <= j <= k && ends_session(#[trigger] queued[j]) && queued[j]
                        != pending.command;
                if j < k {
                    assert(before[j] == queued[j]);
                }
            }
            if last != pending.command {
                assert(renewed);
            }
        }
    }
}

/// Where the last command that ends its session stands, or -1.
spec fn last_ending(commands: Seq<OverlayCommand>) -> int
    decreases commands.len(),
{
    if commands.len() == 0 {
        -1
    } else if ends_session(commands.last()) {
        commands.len() - 1
    } else {
        last_ending(commands.drop_last())
    }
}

proof fn lemma_last_ending(commands: Seq<OverlayCommand>)
    ensures
        -1 <= last_ending(commands) < commands.len(),
        last_ending(commands) >= 0 ==> ends_session(commands[last_ending(commands)]),
        forall|j: int| last_ending(commands) < j < commands.len() ==> #[trigger] commands[j] is Hover,
    decreases commands.len(),
{
    if commands.len() > 0 && !ends_session(commands.last()) {
        let before = commands.drop_last();
        lemma_last_ending(before);
        assert forall|j: int| last_ending(commands) < j < commands.len() implies #[trigger] commands[j] is Hover by {
            if j < before.len() {
                assert(before[j] == commands[j]);
            }
        }
        if last_ending(commands) >= 0 {
            assert(before[last_ending(commands)] == commands[last_ending(commands)]);
        }
    }
}

/// A command and those behind it come to the last that ends its session, or to
/// the newest where none does.
proof fn lemma_coalesced_all(command: OverlayCommand, queued: Seq<OverlayCommand>)
    ensures
        ({
            let all = seq![command] + queued;
            let k = last_ending(all);
            coalesced_all(command, queued) == if k >= 0 {
                all[k]
            } else {
                all.last()
            }
        }),
    decreases queued.len(),
{
    let all = seq![command] + queued;
    if queued.len() == 0 {
        assert(all =~= seq![command]);
        reveal_with_fuel(last_ending, 2);
        assert(all.drop_last() =~= Seq::empty());
    } else {
        lemma_coalesced_all(command, queued.drop_last());
        let before = seq![command] + queued.drop_last();
        assert(all.drop_last() =~= before);
        assert(all.last() == queued.last());
        lemma_last_ending(all);
        lemma_last_ending(before);
        if last_ending(all) >= 0 && last_ending(all) < before.len() {
            assert(all[last_ending(all)] == before[last_ending(all)]);
        }
        if last_ending(before) < 0 {
            assert(before[before.len() - 1] is Hover);
        }
    }
}

/// Where a position is the last of a kind, it is the one that is found.
proof fn lemma_last_ending_is(commands: Seq<OverlayCommand>, k: int)
    requires
        -1 <= k < commands.len(),
        k >= 0 ==> ends_session(commands[k]),
        forall|j: int| k < j < commands.len() ==> #[trigger] commands[j] is Hover,
    ensures
        last_ending(commands) == k,
    decreases commands.len(),
{
    if commands.len() > 0 {
        assert(commands.last() == commands[commands.len() - 1]);
        let before = commands.drop_last();
        assert forall|j: int| 0 <= j < before.len() implies #[trigger] before[j] == commands[j] by {}
        if k < commands.len() - 1 {
            lemma_last_ending_is(before, k);
        }
    }
}

/// Of the commands that arrive together, the last pick or cancel is the one
/// that is left to be sent, whatever was under way and however many hovers
/// came before and after it. It has the ring's whole time from now on, unless
/// it is the very command that was waiting already.
pub proof fn lemma_last_pick_or_cancel_is_sent(
    sender: CommandSender,
    event: SenderEvent,
    queued: Seq<OverlayCommand>,
    now: u64,
    k: int,
)
    requires
        sender.wf(),
        sender.stage != Stage::Stopped,
        event is Received || (event is Delayed && sender.stage is Delaying),
        now + DISPLAY_LIFETIME <= u64::MAX,
        0 <= k < arrivals(event, queued).len(),
        ends_session(arrivals(event, queued)[k]),
        forall|j: int|
            k < j < arrivals(event, queued).len() ==> #[trigger] arrivals(event, queued)[j]
                is Hover,
    ensures
        ({
            let command = arrivals(event, queued)[k];
            let (after, action) = stepped(sender, event, queued, now);
            let known = waiting(sender.stage) matches Some(earlier) && earlier.command == command;
            &&& waiting(after.stage) matches Some(pending) && {
                &&& pending.command == command
                &&& !known ==> pending.deadline == Some((now + DISPLAY_LIFETIME) as u64)
                &&& known ==> pending == waiting(sender.stage)->0 || pending.deadline == Some(
                    (now + DISPLAY_LIFETIME) as u64,
                )
                &&& known && (forall|j: int|
                    0 <= j < k && ends_session(#[trigger] arrivals(event, queued)[j])
                        ==> arrivals(event, queued)[j] == command) ==> pending == waiting(
                    sender.stage,
                )->0
                &&& known && under_way(sender.stage) ==> after == sender && action
                    == SenderAction::KeepGoing
                &&& !(known && under_way(sender.stage)) ==> action == take_up(
                    sender.connected,
                    pending,
                )
            }
            &&& after.connected == sender.connected
        }),
{
    let all = arrivals(event, queued);
    match event {
        SenderEvent::Received(first) => {
            lemma_last_ending_is(all, k);
            lemma_coalesced_all(first, queued);
            if let Some(pending) = waiting(sender.stage) {
                lemma_merge_first(pending, first, queued, now);
                lemma_merged_all(pending, all, now, k);
                if all[k] != pending.command {
                    assert(exists|j: int|
                        0 <= j <= k && ends_session(#[trigger] all[j]) && all[j]
                            != pending.command);
                }
            }
        },
        _ => {
            if let Some(pending) = waiting(sender.stage) {
                lemma_merged_all(pending, all, now, k);
                if all[k] != pending.command {
                    assert(exists|j: int|
                        0 <= j <= k && ends_session(#[trigger] all[j]) && all[j]
                            != pending.command);
                }
            }
        },
    }
}

/// Hovers alone leave a waiting pick or cancel as it is, deadline and all; any
/// other waiting command gives way to the newest hover, which is not sent
/// again.
pub proof fn lemma_newest_hover_is_sent(
    sender: CommandSender,
    event: SenderEvent,
    queued: Seq<OverlayCommand>,
    now: u64,
)
    requires
        sender.wf(),
        sender.stage != Stage::Stopped,
        event is Received || (event is Delayed && sender.stage is Delaying),
        now + DISPLAY_LIFETIME <= u64::MAX,
        forall|j: int|
            0 <= j < arrivals(event, queued).len() ==> #[trigger] arrivals(event, queued)[j]
                is Hover,
    ensures
        ({
            let all = arrivals(event, queued);
            let (after, action) = stepped(sender, event, queued, now);
            let earlier = waiting(sender.stage);
            let held = earlier matches Some(pending) && ends_session(pending.command);
            let kept = held || all.len() == 0;
            let known = kept || (earlier matches Some(pending) && pending.command == all.last());
            &&& waiting(after.stage) matches Some(pending) && {
                &&& kept ==> Some(pending) == earlier
                &&& !kept ==> pending.command == all.last() && pending.deadline is None
                &&& known && under_way(sender.stage) ==> after == sender && action
                    == SenderAction::KeepGoing
                &&& !(known && under_way(sender.stage)) ==> action == take_up(
                    sender.connected,
                    pending,
                )
            }
            &&& after.connected == sender.connected
        }),
{
    let all = arrivals(event, queued);
    match event {
        SenderEvent::Received(first) => {
            lemma_last_ending_is(all, -1);
            lemma_coalesced_all(first, queued);
            assert(all[all.len() - 1] is Hover);
            if let Some(pending) = waiting(sender.stage) {
                lemma_merge_first(pending, first, queued, now);
                lemma_merged_all(pending, all, now, -1);
            }
        },
        _ => {
            if let Some(pending) = waiting(sender.stage) {
                lemma_merged_all(pending, all, now, -1);
            }
        },
    }
}

/// A connection is used for as long as it works: after an answer the next
/// command goes straight out, and after a failure a connection is looked for
/// first.
pub proof fn lemma_a_working_connection_is_used_again(
    sender: CommandSender,
    answered: bool,
    next: OverlayCommand,
    now: u64,
    later: u64,
)
    requires
        sender.wf(),
        sender.stage is Sending,
        later + DISPLAY_LIFETIME <= u64::MAX,
    ensures
        ({
            let between = stepped(sender, SenderEvent::Sent(answered), Seq::empty(), now).0;
            let action = stepped(between, SenderEvent::Received(next), Seq::empty(), later).1;
            &&& answered ==> (action matches SenderAction::Send { command, .. } && command == next)
            &&& !answered ==> action is Connect
        }),
{
    reveal_with_fuel(merged_all, 1);
    reveal_with_fuel(coalesced_all, 1);
}

/// A pick or cancel that failed with time left is tried again as it was: after
/// the pause a connection is looked for, and once there is one the same
/// command is sent, with the same deadline.
pub proof fn lemma_a_retry_sends_the_same_command(
    pending: Pending,
    failed: SenderEvent,
    now: u64,
    resumed: u64,
    connected: u64,
)
    requires
        ends_session(pending.command),
        pending.deadline matches Some(deadline) && now < deadline,
        failed == SenderEvent::Sent(false) || failed == SenderEvent::Connected(false),
    ensures
        ({
            let sender = CommandSender {
                connected: failed is Sent,
                stage: if failed is Sent {
                    Stage::Sending(pending)
                } else {
                    Stage::Connecting(pending)
                },
            };
            let (waited, pause) = stepped(sender, failed, Seq::empty(), now);
            let (trying, look) = stepped(waited, SenderEvent::Delayed, Seq::empty(), resumed);
            let sent = stepped(trying, SenderEvent::Connected(true), Seq::empty(), connected).1;
            &&& pause is Delay
            &&& look == (SenderAction::Connect { deadline: pending.deadline })
            &&& sent == (SenderAction::Send { command: pending.command, deadline: pending.deadline })
        }),
{
    reveal_with_fuel(merged_all, 1);
}

/// An attempt whose time runs out ends, and the connection stays what it was.
pub proof fn lemma_an_expired_attempt_ends(sender: CommandSender, now: u64)
    requires
        under_way(sender.stage),
    ensures
        ({
            let (after, action) = stepped(sender, SenderEvent::Expired, Seq::empty(), now);
            &&& after == CommandSender { connected: sender.connected, stage: Stage::Idle }
            &&& action == SenderAction::AwaitCommand
        }),
{
}

/// When there will be no more commands the sender comes to an end: at once, or
/// after it let go of a command that waits to be tried again. Nothing is sent
/// any more.
pub proof fn lemma_closing_ends_the_sender(sender: CommandSender, now: u64, later: u64)
    requires
        sender.stage != Stage::Stopped,
    ensures
        ({
            let (after, action) = stepped(sender, SenderEvent::Closed, Seq::empty(), now);
            &&& sender.stage is Delaying ==> after.stage == Stage::Idle && action
                == SenderAction::AwaitCommand && stepped(
                after,
                SenderEvent::Closed,
                Seq::empty(),
                later,
            ).1 == SenderAction::Stop
            &&& !(sender.stage is Delaying) ==> after.stage == Stage::Stopped && action
                == SenderAction::Stop
        }),
{
}

/// The overlay goes on polling for as long as invocations find somebody: it
/// stops exactly where one does not, polls whenever it has a connection that
/// works, for longer than the agent holds a poll, and pauses only where there
/// is no agent.
pub proof fn lemma_polling_goes_on(event: PollEvent)
    ensures
        polled(event) == PollAction::Stop <==> event == (PollEvent::Invocation {
            handed_on: false,
        }),
        polled(event) is Poll <==> event == PollEvent::Connected(true) || event
            == PollEvent::Nothing || event == (PollEvent::Invocation { handed_on: true }),
        polled(event) matches PollAction::Poll(time) ==> time > LONG_POLL_HOLD,
        polled(event) is Reconnect <==> event == PollEvent::Connected(false),
        polled(event) matches PollAction::Reconnect(pause) ==> pause > 0,
        polled(event) == PollAction::Connect <==> event == PollEvent::Start || event
            == PollEvent::Disconnected,
{
}

} // verus!
