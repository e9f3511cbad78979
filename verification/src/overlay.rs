//! The overlay's side of the ring: which commands it sends, and when.
//!
//! The overlay reports what the pointer does. Reports may pile up while the
//! agent is slow or away: a newer one takes the place of an older one, but a
//! hover never takes the place of a pick or a cancel, and only those two are
//! worth sending again.

use crate::action_ring::{
    ActionRingPresentation, ActionRingSlot, DISPLAY_LIFETIME, LONG_POLL_HOLD,
};
use vstd::prelude::*;

verus! {

/// Delay before a failed command is sent again, in nanoseconds.
pub const RETRY_DELAY: u64 = 100_000_000;

/// Delay before the agent is looked for again, in nanoseconds.
pub const RECONNECT_DELAY: u64 = 1_000_000_000;

/// How long a poll for the next invocation may take, in nanoseconds.
pub const POLL_DEADLINE: u64 = 25_000_000_000;

/// A report to the agent.
#[derive(Debug, Clone, Copy, PartialEq, Eq, Structural)]
pub enum OverlayCommand {
    Hover { session_id: u64, slot: ActionRingSlot },
    Activate { session_id: u64, slot: ActionRingSlot },
    Cancel { session_id: u64 },
}

impl OverlayCommand {
    /// Whether the command ends its session.
    #[verifier::allow_in_spec]
    pub fn is_terminal(self) -> bool
        returns
            self is Activate || self is Cancel,
    {
        match self {
            OverlayCommand::Activate { .. } | OverlayCommand::Cancel { .. } => true,
            OverlayCommand::Hover { .. } => false,
        }
    }
}

/// The command to send of two in a row: the newer one, except that a hover
/// gives way to a command that ends its session.
#[verifier::allow_in_spec]
pub fn coalesce_command(current: OverlayCommand, next: OverlayCommand) -> OverlayCommand
    returns
        (if next is Hover && current.is_terminal() {
            current
        } else {
            next
        }),
{
    match next {
        OverlayCommand::Hover { .. } if current.is_terminal() => current,
        _ => next,
    }
}

/// Until when a command that was made at `now` is sent again: one that ends
/// its session for as long as the ring may show, any other not at all.
pub open spec fn deadline_of(command: OverlayCommand, now: u64) -> Option<u64> {
    if command.is_terminal() {
        Some((now + DISPLAY_LIFETIME) as u64)
    } else {
        None
    }
}

/// Until when a command that was made at `now` is sent again.
pub fn command_deadline(command: OverlayCommand, now: u64) -> (deadline: Option<u64>)
    requires
        now + DISPLAY_LIFETIME <= u64::MAX,
    ensures
        deadline == deadline_of(command, now),
{
    if command.is_terminal() {
        Some(now + DISPLAY_LIFETIME)
    } else {
        None
    }
}

/// Whether there is still time to send a command again.
pub fn retry_before(deadline: Option<u64>, now: u64) -> (retry: bool)
    ensures
        retry == (deadline matches Some(deadline) && now < deadline),
{
    match deadline {
        Some(deadline) => now < deadline,
        None => false,
    }
}

/// A command waiting to be sent.
#[derive(Debug, Clone, Copy, PartialEq, Eq, Structural)]
pub struct Pending {
    pub command: OverlayCommand,
    /// Until when it is sent again.
    pub deadline: Option<u64>,
}

/// A waiting command and one more: a command that changes has its time anew.
pub open spec fn merged(pending: Pending, next: OverlayCommand, now: u64) -> Pending {
    let command = coalesce_command(pending.command, next);
    if command == pending.command {
        pending
    } else {
        Pending { command, deadline: deadline_of(command, now) }
    }
}

/// A waiting command and all that queued up behind it.
pub open spec fn merged_all(pending: Pending, queued: Seq<OverlayCommand>, now: u64) -> Pending
    decreases queued.len(),
{
    if queued.len() == 0 {
        pending
    } else {
        merged(merged_all(pending, queued.drop_last(), now), queued.last(), now)
    }
}

/// A command and all that queued up behind it.
pub open spec fn coalesced_all(command: OverlayCommand, queued: Seq<OverlayCommand>) -> OverlayCommand
    decreases queued.len(),
{
    if queued.len() == 0 {
        command
    } else {
        coalesce_command(coalesced_all(command, queued.drop_last()), queued.last())
    }
}

/// Put one more command behind a waiting one.
pub fn merge_pending(pending: Pending, next: OverlayCommand, now: u64) -> (after: Pending)
    requires
        now + DISPLAY_LIFETIME <= u64::MAX,
    ensures
        after == merged(pending, next, now),
{
    let command = coalesce_command(pending.command, next);
    if command == pending.command {
        pending
    } else {
        Pending { command, deadline: command_deadline(command, now) }
    }
}

fn merge_queued(pending: Pending, queued: &[OverlayCommand], now: u64) -> (after: Pending)
    requires
        now + DISPLAY_LIFETIME <= u64::MAX,
    ensures
        after == merged_all(pending, queued@, now),
{
    let mut after = pending;
    assert(queued@.take(0) =~= Seq::empty());
    for i in 0..queued.len()
        invariant
            now + DISPLAY_LIFETIME <= u64::MAX,
            after == merged_all(pending, queued@.take(i as int), now),
    {
        assert(queued@.take(i + 1).drop_last() =~= queued@.take(i as int));
        after = merge_pending(after, queued[i], now);
    }
    assert(queued@.take(queued@.len() as int) =~= queued@);
    after
}

fn coalesce_queued(command: OverlayCommand, queued: &[OverlayCommand]) -> (after: OverlayCommand)
    ensures
        after == coalesced_all(command, queued@),
{
    let mut after = command;
    assert(queued@.take(0) =~= Seq::empty());
    for i in 0..queued.len()
        invariant
            after == coalesced_all(command, queued@.take(i as int)),
    {
        assert(queued@.take(i + 1).drop_last() =~= queued@.take(i as int));
        after = coalesce_command(after, queued[i]);
    }
    assert(queued@.take(queued@.len() as int) =~= queued@);
    after
}

/// What the sender of commands is about.
#[derive(Debug, Clone, Copy, PartialEq, Eq, Structural)]
pub enum Stage {
    /// Waiting for a command.
    Idle,
    Connecting(Pending),
    Sending(Pending),
    /// Waiting to try again.
    Delaying(Pending),
    /// There will be no more commands.
    Stopped,
}

/// The sender of commands.
#[derive(Debug, Clone, Copy, PartialEq, Eq, Structural)]
pub struct CommandSender {
    pub connected: bool,
    pub stage: Stage,
}

/// What happened to the sender.
#[derive(Debug, Clone, Copy, PartialEq, Eq, Structural)]
pub enum SenderEvent {
    /// A command arrived.
    Received(OverlayCommand),
    /// There will be no more commands.
    Closed,
    /// The attempt to connect ended, in a connection or not.
    Connected(bool),
    /// The attempt to send ended, in an answer or not.
    Sent(bool),
    /// The time of the command under way ran out.
    Expired,
    /// The delay is over.
    Delayed,
}

/// What the sender is to do. An attempt goes on until it ends, a command
/// arrives, or its deadline passes.
#[derive(Debug, Clone, Copy, PartialEq, Eq, Structural)]
pub enum SenderAction {
    AwaitCommand,
    Connect { deadline: Option<u64> },
    Send { command: OverlayCommand, deadline: Option<u64> },
    /// Let the attempt under way go on.
    KeepGoing,
    /// Wait this many nanoseconds, or for a command.
    Delay(u64),
    Stop,
}

/// Whether the time of a command is up.
pub open spec fn is_up(pending: Pending, now: u64) -> bool {
    pending.deadline matches Some(deadline) && now >= deadline
}

/// Whether an event can happen at a stage and a time: the time of a command
/// runs out at its deadline, and not before.
pub open spec fn possible(stage: Stage, event: SenderEvent, now: u64) -> bool {
    match stage {
        Stage::Idle => event is Received || event is Closed,
        Stage::Connecting(pending) => event is Received || event is Closed || event is Connected
            || (event is Expired && is_up(pending, now)),
        Stage::Sending(pending) => event is Received || event is Closed || event is Sent || (
        event is Expired && is_up(pending, now)),
        Stage::Delaying(_) => event is Received || event is Closed || event is Delayed,
        Stage::Stopped => false,
    }
}

impl CommandSender {
    /// Only a connected sender sends, only an unconnected one connects or
    /// waits to; and a waiting command has a deadline exactly where it is
    /// worth sending again.
    pub open spec fn wf(self) -> bool {
        match self.stage {
            Stage::Idle | Stage::Stopped => true,
            Stage::Connecting(pending) | Stage::Delaying(pending) => !self.connected
                && pending.deadline is Some == pending.command.is_terminal(),
            Stage::Sending(pending) => self.connected && pending.deadline is Some
                == pending.command.is_terminal(),
        }
    }
}

/// A sender that takes up a command: over the connection at hand, or after
/// looking for one.
pub open spec fn attempted(connected: bool, pending: Pending) -> (CommandSender, SenderAction) {
    if connected {
        (
            CommandSender { connected, stage: Stage::Sending(pending) },
            SenderAction::Send { command: pending.command, deadline: pending.deadline },
        )
    } else {
        (
            CommandSender { connected, stage: Stage::Connecting(pending) },
            SenderAction::Connect { deadline: pending.deadline },
        )
    }
}

/// A sender without a connection: it waits to try again while there is time,
/// and drops the command where there is not.
pub open spec fn delayed(pending: Pending, now: u64) -> (CommandSender, SenderAction) {
    if pending.deadline matches Some(deadline) && now < deadline {
        (
            CommandSender { connected: false, stage: Stage::Delaying(pending) },
            SenderAction::Delay(RETRY_DELAY),
        )
    } else {
        (CommandSender { connected: false, stage: Stage::Idle }, SenderAction::AwaitCommand)
    }
}

/// A sender with nothing to send.
pub open spec fn rested(connected: bool) -> (CommandSender, SenderAction) {
    (CommandSender { connected, stage: Stage::Idle }, SenderAction::AwaitCommand)
}

/// The sender after an event, and what it is to do. `queued` are the commands
/// that queued up behind a command or a pause.
pub open spec fn stepped(
    sender: CommandSender,
    event: SenderEvent,
    queued: Seq<OverlayCommand>,
    now: u64,
) -> (CommandSender, SenderAction) {
    match (sender.stage, event) {
        (Stage::Idle, SenderEvent::Received(command)) => {
            let command = coalesced_all(command, queued);
            attempted(
                sender.connected,
                Pending { command, deadline: deadline_of(command, now) },
            )
        },
        (Stage::Connecting(pending), SenderEvent::Received(next)) | (
            Stage::Sending(pending),
            SenderEvent::Received(next),
        ) => {
            let after = merged_all(merged(pending, next, now), queued, now);
            if after.command == pending.command {
                (sender, SenderAction::KeepGoing)
            } else {
                attempted(sender.connected, after)
            }
        },
        (Stage::Delaying(pending), SenderEvent::Received(next)) => attempted(
            sender.connected,
            merged_all(merged(pending, next, now), queued, now),
        ),
        (Stage::Connecting(pending), SenderEvent::Connected(connected)) => if connected {
            attempted(true, pending)
        } else {
            delayed(pending, now)
        },
        (Stage::Sending(pending), SenderEvent::Sent(answered)) => if answered {
            rested(sender.connected)
        } else {
            delayed(pending, now)
        },
        (Stage::Connecting(_), SenderEvent::Expired) | (
            Stage::Sending(_),
            SenderEvent::Expired,
        ) => rested(sender.connected),
        (Stage::Delaying(pending), SenderEvent::Delayed) => attempted(
            sender.connected,
            merged_all(pending, queued, now),
        ),
        (Stage::Delaying(_), SenderEvent::Closed) => rested(sender.connected),
        (_, _) => (
            CommandSender { connected: sender.connected, stage: Stage::Stopped },
            SenderAction::Stop,
        ),
    }
}

impl CommandSender {
    /// A sender that has yet to connect.
    pub fn new() -> (sender: CommandSender)
        ensures
            sender == (CommandSender { connected: false, stage: Stage::Idle }),
            sender.wf(),
    {
        CommandSender { connected: false, stage: Stage::Idle }
    }

    fn attempt(&mut self, pending: Pending) -> (action: SenderAction)
        ensures
            (*final(self), action) == attempted(old(self).connected, pending),
    {
        if self.connected {
            self.stage = Stage::Sending(pending);
            SenderAction::Send { command: pending.command, deadline: pending.deadline }
        } else {
            self.stage = Stage::Connecting(pending);
            SenderAction::Connect { deadline: pending.deadline }
        }
    }

    fn delay(&mut self, pending: Pending, now: u64) -> (action: SenderAction)
        ensures
            (*final(self), action) == delayed(pending, now),
    {
        self.connected = false;
        if retry_before(pending.deadline, now) {
            self.stage = Stage::Delaying(pending);
            SenderAction::Delay(RETRY_DELAY)
        } else {
            self.stage = Stage::Idle;
            SenderAction::AwaitCommand
        }
    }

    /// Take in what happened. Commands that queued up behind a command, or
    /// behind a pause, are taken in with it; at any other event the queue is
    /// left as it is, and its commands arrive as events of their own.
    pub fn step(&mut self, event: SenderEvent, queued: &[OverlayCommand], now: u64) -> (action: SenderAction)
        requires
            old(self).wf(),
            possible(old(self).stage, event, now),
            queued@.len() == 0 || event is Received || event is Delayed,
            now + DISPLAY_LIFETIME <= u64::MAX,
        ensures
            final(self).wf(),
            (*final(self), action) == stepped(*old(self), event, queued@, now),
    {
        match (self.stage, event) {
            (Stage::Idle, SenderEvent::Received(command)) => {
                let command = coalesce_queued(command, queued);
                let deadline = command_deadline(command, now);
                self.attempt(Pending { command, deadline })
            },
            (Stage::Connecting(pending), SenderEvent::Received(next)) => {
                let after = merge_queued(merge_pending(pending, next, now), queued, now);
                proof {
                    lemma_deadlines_follow(pending, next, queued@, now);
                }
                if after.command == pending.command {
                    SenderAction::KeepGoing
                } else {
                    self.attempt(after)
                }
            },
            (Stage::Sending(pending), SenderEvent::Received(next)) => {
                let after = merge_queued(merge_pending(pending, next, now), queued, now);
                proof {
                    lemma_deadlines_follow(pending, next, queued@, now);
                }
                if after.command == pending.command {
                    SenderAction::KeepGoing
                } else {
                    self.attempt(after)
                }
            },
            (Stage::Delaying(pending), SenderEvent::Received(next)) => {
                let after = merge_queued(merge_pending(pending, next, now), queued, now);
                proof {
                    lemma_deadlines_follow(pending, next, queued@, now);
                }
                self.attempt(after)
            },
            (Stage::Connecting(pending), SenderEvent::Connected(connected)) => {
                if connected {
                    self.connected = true;
                    self.attempt(pending)
                } else {
                    self.delay(pending, now)
                }
            },
            (Stage::Sending(pending), SenderEvent::Sent(answered)) => {
                if answered {
                    self.stage = Stage::Idle;
                    SenderAction::AwaitCommand
                } else {
                    self.delay(pending, now)
                }
            },
            (Stage::Delaying(pending), SenderEvent::Delayed) => {
                let after = merge_queued(pending, queued, now);
                proof {
                    lemma_deadline_follows(pending, queued@, now);
                }
                self.attempt(after)
            },
            (Stage::Connecting(_), SenderEvent::Expired) | (
                Stage::Sending(_),
                SenderEvent::Expired,
            ) | (Stage::Delaying(_), SenderEvent::Closed) => {
                self.stage = Stage::Idle;
                SenderAction::AwaitCommand
            },
            _ => {
                self.stage = Stage::Stopped;
                SenderAction::Stop
            },
        }
    }
}

/// A waiting command keeps a deadline exactly where it is worth sending again.
proof fn lemma_deadline_follows(pending: Pending, queued: Seq<OverlayCommand>, now: u64)
    requires
        pending.deadline is Some == pending.command.is_terminal(),
    ensures
        merged_all(pending, queued, now).deadline is Some == merged_all(
            pending,
            queued,
            now,
        ).command.is_terminal(),
    decreases queued.len(),
{
    if queued.len() > 0 {
        lemma_deadline_follows(pending, queued.drop_last(), now);
    }
}

proof fn lemma_deadlines_follow(
    pending: Pending,
    next: OverlayCommand,
    queued: Seq<OverlayCommand>,
    now: u64,
)
    requires
        pending.deadline is Some == pending.command.is_terminal(),
    ensures
        ({
            let after = merged_all(merged(pending, next, now), queued, now);
            after.deadline is Some == after.command.is_terminal()
        }),
{
    lemma_deadline_follows(merged(pending, next, now), queued, now);
}

/// No number of hovers takes the place of a command that ends its session.
pub proof fn lemma_hovers_never_displace_a_terminal_command(
    pending: Pending,
    queued: Seq<OverlayCommand>,
    now: u64,
)
    requires
        pending.command.is_terminal(),
        forall|i: int| 0 <= i < queued.len() ==> #[trigger] queued[i] is Hover,
    ensures
        merged_all(pending, queued, now) == pending,
        coalesced_all(pending.command, queued) == pending.command,
    decreases queued.len(),
{
    if queued.len() > 0 {
        let before = queued.drop_last();
        assert forall|i: int| 0 <= i < before.len() implies #[trigger] before[i] is Hover by {
            assert(before[i] == queued[i]);
        }
        assert(queued[queued.len() - 1] is Hover);
        lemma_hovers_never_displace_a_terminal_command(pending, before, now);
    }
}

/// A newer command that ends its session is taken up at once, whatever was
/// under way.
pub proof fn lemma_newer_terminal_command_supersedes(
    sender: CommandSender,
    pending: Pending,
    next: OverlayCommand,
    now: u64,
)
    requires
        sender.stage == Stage::Connecting(pending) || sender.stage == Stage::Sending(pending)
            || sender.stage == Stage::Delaying(pending),
        next.is_terminal(),
        next != pending.command,
    ensures
        stepped(sender, SenderEvent::Received(next), Seq::empty(), now) == attempted(
            sender.connected,
            Pending { command: next, deadline: deadline_of(next, now) },
        ),
{
}

/// A command that failed is sent again only if it ends its session, and only
/// before its deadline; otherwise it is dropped.
pub proof fn lemma_only_terminal_commands_are_sent_again(
    sender: CommandSender,
    pending: Pending,
    event: SenderEvent,
    now: u64,
)
    requires
        sender.wf(),
        (sender.stage == Stage::Sending(pending) && event == SenderEvent::Sent(false)) || (
        sender.stage == Stage::Connecting(pending) && event == SenderEvent::Connected(false)),
    ensures
        ({
            let (after, action) = stepped(sender, event, Seq::empty(), now);
            &&& after.stage == Stage::Delaying(pending) ==> pending.command.is_terminal()
                && (pending.deadline matches Some(deadline) && now < deadline)
            &&& after.stage != Stage::Delaying(pending) ==> after.stage == Stage::Idle && action
                == SenderAction::AwaitCommand
        }),
{
}

/// An attempt is given up for good when there will be no more commands.
pub proof fn lemma_closing_stops_an_attempt(sender: CommandSender, now: u64)
    requires
        sender.stage is Connecting || sender.stage is Sending,
    ensures
        stepped(sender, SenderEvent::Closed, Seq::empty(), now).1 == SenderAction::Stop,
{
}

/// What the overlay's poll for invocations does next.
#[derive(Debug, Clone, Copy, PartialEq, Eq, Structural)]
pub enum PollAction {
    Connect,
    /// Wait this many nanoseconds, then connect.
    Reconnect(u64),
    /// Poll, for at most this many nanoseconds.
    Poll(u64),
    Stop,
}

/// What the overlay's poll for invocations met.
#[derive(Debug, Clone, Copy, PartialEq, Eq, Structural)]
pub enum PollEvent {
    Start,
    /// The attempt to connect ended, in a connection or not.
    Connected(bool),
    /// The poll brought an invocation, which was handed on or found nobody.
    Invocation { handed_on: bool },
    /// The poll brought nothing.
    Nothing,
    /// The poll failed.
    Disconnected,
}

/// What follows in the overlay's poll for invocations.
pub open spec fn polled(event: PollEvent) -> PollAction {
    match event {
        PollEvent::Start | PollEvent::Disconnected => PollAction::Connect,
        PollEvent::Connected(connected) => if connected {
            PollAction::Poll(POLL_DEADLINE)
        } else {
            PollAction::Reconnect(RECONNECT_DELAY)
        },
        PollEvent::Invocation { handed_on } => if handed_on {
            PollAction::Poll(POLL_DEADLINE)
        } else {
            PollAction::Stop
        },
        PollEvent::Nothing => PollAction::Poll(POLL_DEADLINE),
    }
}

/// The next step of the overlay's poll for invocations.
pub fn poll_step(event: PollEvent) -> (action: PollAction)
    ensures
        action == polled(event),
        action == match event {
            PollEvent::Start | PollEvent::Disconnected => PollAction::Connect,
            PollEvent::Connected(connected) => if connected {
                PollAction::Poll(POLL_DEADLINE)
            } else {
                PollAction::Reconnect(RECONNECT_DELAY)
            },
            PollEvent::Invocation { handed_on } => if handed_on {
                PollAction::Poll(POLL_DEADLINE)
            } else {
                PollAction::Stop
            },
            PollEvent::Nothing => PollAction::Poll(POLL_DEADLINE),
        },
{
    match event {
        PollEvent::Start | PollEvent::Disconnected => PollAction::Connect,
        PollEvent::Connected(true) | PollEvent::Nothing => PollAction::Poll(POLL_DEADLINE),
        PollEvent::Connected(false) => PollAction::Reconnect(RECONNECT_DELAY),
        PollEvent::Invocation { handed_on: true } => PollAction::Poll(POLL_DEADLINE),
        PollEvent::Invocation { handed_on: false } => PollAction::Stop,
    }
}

/// A poll is given more time than the agent holds it open for.
pub proof fn lemma_poll_outlasts_the_hold()
    ensures
        POLL_DEADLINE > LONG_POLL_HOLD,
{
}

/// What a showing ring knows of the pointer.
#[derive(Debug, Clone, Copy, PartialEq, Eq, Structural)]
pub struct RingPointer {
    pub session_id: u64,
    pub hovered: Option<ActionRingSlot>,
    /// Whether the ring was drawn before.
    pub armed: bool,
}

/// What a movement of the pointer changes.
#[derive(Debug, Clone, Copy, PartialEq, Eq, Structural)]
pub struct HoverChange {
    pub repaint: bool,
    pub command: Option<OverlayCommand>,
}

impl RingPointer {
    /// A ring that was just opened.
    pub fn new(session_id: u64) -> (ring: RingPointer)
        ensures
            ring == (RingPointer { session_id, hovered: None, armed: false }),
    {
        RingPointer { session_id, hovered: None, armed: false }
    }

    /// Note that the ring is drawn, and return whether it was drawn before:
    /// the first drawing happens before the window shows, so motion starts
    /// with the second.
    pub fn draw(&mut self) -> (armed: bool)
        ensures
            armed == old(self).armed,
            *final(self) == (RingPointer { armed: true, ..*old(self) }),
    {
        let armed = self.armed;
        self.armed = true;
        armed
    }

    /// The pointer moved onto or off a slot. Moving onto another slot is
    /// reported; moving off the noted slot is only shown.
    pub fn hover(&mut self, slot: ActionRingSlot, entered: bool) -> (change: HoverChange)
        ensures
            entered && old(self).hovered != Some(slot) ==> {
                &&& *final(self) == RingPointer { hovered: Some(slot), ..*old(self) }
                &&& change == HoverChange {
                    repaint: true,
                    command: Some(
                        OverlayCommand::Hover { session_id: old(self).session_id, slot },
                    ),
                }
            },
            !entered && old(self).hovered == Some(slot) ==> {
                &&& *final(self) == RingPointer { hovered: None, ..*old(self) }
                &&& change == HoverChange { repaint: true, command: None }
            },
            entered == (old(self).hovered == Some(slot)) ==> *final(self) == *old(self) && change
                == (HoverChange { repaint: false, command: None }),
    {
        let noted = self.hovered == Some(slot);
        if entered && !noted {
            self.hovered = Some(slot);
            HoverChange {
                repaint: true,
                command: Some(OverlayCommand::Hover { session_id: self.session_id, slot }),
            }
        } else if !entered && noted {
            self.hovered = None;
            HoverChange { repaint: true, command: None }
        } else {
            HoverChange { repaint: false, command: None }
        }
    }

    /// The slot was clicked.
    pub fn click(&self, slot: ActionRingSlot) -> (command: OverlayCommand)
        ensures
            command == (OverlayCommand::Activate { session_id: self.session_id, slot }),
    {
        OverlayCommand::Activate { session_id: self.session_id, slot }
    }

    /// The ring was dismissed.
    pub fn cancel(&self) -> (command: OverlayCommand)
        ensures
            command == (OverlayCommand::Cancel { session_id: self.session_id }),
    {
        OverlayCommand::Cancel { session_id: self.session_id }
    }
}

/// Where the text of a label comes from.
#[derive(Debug, PartialEq, Eq)]
pub enum LabelText {
    /// Shown as it is.
    Verbatim(String),
    /// Looked up in the translations.
    Translated(String),
}

/// The label of a slot. A label of the user's own is shown as it is, even
/// where it happens to be the name of a translation; any other is translated
/// where there is a translation.
pub fn slot_label<I: Copy>(
    presentation: &ActionRingPresentation<I>,
    translation_key: Option<String>,
) -> (label: LabelText)
    ensures
        label == match translation_key {
            Some(key) if !presentation.literal => LabelText::Translated(key),
            _ => LabelText::Verbatim(presentation.label),
        },
{
    if presentation.literal {
        return LabelText::Verbatim(presentation.label.clone());
    }
    match translation_key {
        Some(key) => LabelText::Translated(key),
        None => LabelText::Verbatim(presentation.label.clone()),
    }
}

} // verus!
