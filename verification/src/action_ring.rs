//! Actions Ring sessions.
//!
//! The overlay gets an opaque session and a snapshot of what to show. The
//! executable actions stay here, and a command can only pick a slot of the
//! session that is showing.

use crate::device::clone_text;
use crate::route::{clone_route, DeviceRoute};
use std::collections::BTreeMap;
use vstd::prelude::*;

verus! {

/// How long the overlay keeps the ring on screen, in nanoseconds.
pub const DISPLAY_LIFETIME: u64 = 15_000_000_000;

/// The time a window may take to open, in nanoseconds: the display counts from
/// the opening of the window, the session from the press before it.
pub const OPENING_MARGIN: u64 = 500_000_000;

/// How long a session stays open, in nanoseconds. It outlives the display.
pub const SESSION_LIFETIME: u64 = DISPLAY_LIFETIME + OPENING_MARGIN;

/// How long a poll for the next invocation is held open, in nanoseconds.
pub const LONG_POLL_HOLD: u64 = 20_000_000_000;

/// A place on the ring.
#[derive(Debug, Clone, Copy, PartialEq, Eq, Structural)]
pub enum ActionRingSlot {
    Top,
    TopRight,
    Right,
    BottomRight,
    Bottom,
    BottomLeft,
    Left,
    TopLeft,
}

/// Places on the ring.
pub const SLOT_COUNT: u8 = 8;

impl ActionRingSlot {
    /// The slot's number, clockwise from the top.
    #[verifier::allow_in_spec]
    pub fn index(self) -> u8
        returns
            match self {
                ActionRingSlot::Top => 0u8,
                ActionRingSlot::TopRight => 1u8,
                ActionRingSlot::Right => 2u8,
                ActionRingSlot::BottomRight => 3u8,
                ActionRingSlot::Bottom => 4u8,
                ActionRingSlot::BottomLeft => 5u8,
                ActionRingSlot::Left => 6u8,
                ActionRingSlot::TopLeft => 7u8,
            },
    {
        match self {
            ActionRingSlot::Top => 0u8,
            ActionRingSlot::TopRight => 1u8,
            ActionRingSlot::Right => 2u8,
            ActionRingSlot::BottomRight => 3u8,
            ActionRingSlot::Bottom => 4u8,
            ActionRingSlot::BottomLeft => 5u8,
            ActionRingSlot::Left => 6u8,
            ActionRingSlot::TopLeft => 7u8,
        }
    }
}

/// A slot's action, with what the user chose to show in place of the action's
/// own label and icon.
pub struct ActionRingEntry<A, I> {
    pub action: A,
    /// The action's own label.
    pub label: String,
    /// The action's own icon.
    pub icon: I,
    pub custom_label: Option<String>,
    pub custom_icon: Option<I>,
}

/// The filled slots of a ring.
pub struct ActionRingLayout<A, I> {
    slots: BTreeMap<u8, ActionRingEntry<A, I>>,
}

impl<A, I> View for ActionRingLayout<A, I> {
    type V = Map<u8, ActionRingEntry<A, I>>;

    closed spec fn view(&self) -> Map<u8, ActionRingEntry<A, I>> {
        self.slots@
    }
}

impl<A, I: Copy> ActionRingLayout<A, I> {
    /// Only places on the ring are filled.
    pub open spec fn wf(&self) -> bool {
        forall|index: u8| #[trigger] self@.contains_key(index) ==> index < SLOT_COUNT
    }

    /// A ring with nothing on it.
    pub fn new() -> (layout: Self)
        ensures
            layout.wf(),
            layout@ == Map::<u8, ActionRingEntry<A, I>>::empty(),
    {
        ActionRingLayout { slots: BTreeMap::new() }
    }

    /// Fill a slot.
    pub fn set(&mut self, slot: ActionRingSlot, entry: ActionRingEntry<A, I>)
        requires
            old(self).wf(),
        ensures
            final(self).wf(),
            final(self)@ == old(self)@.insert(slot.index(), entry),
    {
        assert(slot.index() < SLOT_COUNT);
        self.slots.insert(slot.index(), entry);
        assert forall|index: u8| #[trigger] self@.contains_key(index) implies index
            < SLOT_COUNT by {
            assert(index == slot.index() || old(self)@.contains_key(index));
        }
    }

    /// Choose the icon of a filled slot, or go back to the action's own.
    pub fn set_icon(&mut self, slot: ActionRingSlot, icon: Option<I>)
        requires
            old(self).wf(),
        ensures
            final(self).wf(),
            final(self)@ == if old(self)@.contains_key(slot.index()) {
                old(self)@.insert(
                    slot.index(),
                    ActionRingEntry { custom_icon: icon, ..old(self)@[slot.index()] },
                )
            } else {
                old(self)@
            },
    {
        let index = slot.index();
        match self.slots.remove(&index) {
            Some(entry) => {
                let mut entry = entry;
                entry.custom_icon = icon;
                self.slots.insert(index, entry);
                assert(self@ =~= old(self)@.insert(index, entry));
            },
            None => {
                assert(self@ =~= old(self)@);
            },
        }
    }

    /// Choose the label of a filled slot, or go back to the action's own.
    pub fn set_label(&mut self, slot: ActionRingSlot, label: Option<String>)
        requires
            old(self).wf(),
        ensures
            final(self).wf(),
            final(self)@ == if old(self)@.contains_key(slot.index()) {
                old(self)@.insert(
                    slot.index(),
                    ActionRingEntry { custom_label: label, ..old(self)@[slot.index()] },
                )
            } else {
                old(self)@
            },
    {
        let index = slot.index();
        match self.slots.remove(&index) {
            Some(entry) => {
                let mut entry = entry;
                entry.custom_label = label;
                self.slots.insert(index, entry);
                assert(self@ =~= old(self)@.insert(index, entry));
            },
            None => {
                assert(self@ =~= old(self)@);
            },
        }
    }
}

/// What a slot shows.
#[derive(Debug, PartialEq, Eq)]
pub struct ActionRingPresentation<I> {
    pub label: String,
    /// Whether the label is the user's own, to be shown as it is.
    pub literal: bool,
    pub icon: I,
}

impl<I: Copy> Clone for ActionRingPresentation<I> {
    fn clone(&self) -> (copy: Self)
        ensures
            copy == *self,
    {
        ActionRingPresentation {
            label: self.label.clone(),
            literal: self.literal,
            icon: self.icon,
        }
    }
}

/// What the overlay is told to show. No slots at all means to close the ring.
#[derive(Debug, PartialEq, Eq)]
pub struct ActionRingInvocation<I> {
    pub session_id: u64,
    /// What to show, by slot number.
    pub slots: BTreeMap<u8, ActionRingPresentation<I>>,
    pub language: Option<String>,
}

impl<I: Copy> Clone for ActionRingInvocation<I> {
    fn clone(&self) -> (copy: Self)
        ensures
            copy@ == self@,
    {
        ActionRingInvocation {
            session_id: self.session_id,
            slots: self.slots.clone(),
            language: clone_text(&self.language),
        }
    }
}

/// The value of an invocation.
#[verifier::ext_equal]
pub struct InvocationView<I> {
    pub session_id: u64,
    pub slots: Map<u8, ActionRingPresentation<I>>,
    pub language: Option<String>,
}

impl<I> View for ActionRingInvocation<I> {
    type V = InvocationView<I>;

    open spec fn view(&self) -> InvocationView<I> {
        InvocationView {
            session_id: self.session_id,
            slots: self.slots@,
            language: self.language,
        }
    }
}

/// What an entry shows: the user's choice where there is one, else the
/// action's own.
pub open spec fn presented<A, I>(entry: ActionRingEntry<A, I>) -> ActionRingPresentation<I> {
    ActionRingPresentation {
        label: match entry.custom_label {
            Some(label) => label,
            None => entry.label,
        },
        literal: entry.custom_label is Some,
        icon: match entry.custom_icon {
            Some(icon) => icon,
            None => entry.icon,
        },
    }
}

/// What a session is opened with.
pub struct ActionRingSessionSpec<A, I> {
    /// Config key of the device whose control opened the ring.
    pub device_key: String,
    /// Where feedback is played, if it is.
    pub haptic_route: Option<DeviceRoute>,
    pub layout: ActionRingLayout<A, I>,
    pub language: Option<String>,
}

/// A slot that was picked.
#[derive(Debug, PartialEq, Eq)]
pub struct ActionRingActivation<A> {
    pub device_key: String,
    pub action: A,
    pub haptic_route: Option<DeviceRoute>,
}

/// A slot that the pointer moved onto.
#[derive(Debug, PartialEq, Eq)]
pub struct ActionRingHover {
    pub haptic_route: Option<DeviceRoute>,
}

/// Why a command was refused.
#[derive(Debug, Clone, Copy, PartialEq, Eq, Structural)]
pub enum ActionRingCommandError {
    /// The session is over, was replaced, or never was.
    SessionNotFound,
    /// Nothing is in the slot.
    SlotEmpty,
}

struct Session<A, I> {
    invocation: ActionRingInvocation<I>,
    pending: bool,
    device_key: String,
    haptic_route: Option<DeviceRoute>,
    actions: BTreeMap<u8, A>,
    hovered: Option<ActionRingSlot>,
    opened_at: u64,
}

/// The value of a session.
#[verifier::ext_equal]
pub struct SessionView<A, I> {
    pub invocation: InvocationView<I>,
    /// Whether the overlay has yet to be told.
    pub pending: bool,
    pub device_key: String,
    pub haptic_route: Option<DeviceRoute>,
    pub actions: Map<u8, A>,
    pub hovered: Option<ActionRingSlot>,
    pub opened_at: u64,
}

impl<A, I> View for Session<A, I> {
    type V = SessionView<A, I>;

    closed spec fn view(&self) -> SessionView<A, I> {
        SessionView {
            invocation: self.invocation@,
            pending: self.pending,
            device_key: self.device_key,
            haptic_route: self.haptic_route,
            actions: self.actions@,
            hovered: self.hovered,
            opened_at: self.opened_at,
        }
    }
}

/// The ring's sessions: at most one is open.
pub struct ActionRingManager<A, I> {
    next_session: u64,
    active: Option<Session<A, I>>,
}

/// The value of the ring's sessions.
#[verifier::ext_equal]
pub struct SessionsView<A, I> {
    pub next_session: u64,
    pub active: Option<SessionView<A, I>>,
}

impl<A, I> View for ActionRingManager<A, I> {
    type V = SessionsView<A, I>;

    closed spec fn view(&self) -> SessionsView<A, I> {
        SessionsView {
            next_session: self.next_session,
            active: match self.active {
                Some(session) => Some(session@),
                None => None,
            },
        }
    }
}

/// Whether a session has outlived its time.
pub open spec fn expired<A, I>(session: SessionView<A, I>, now: u64) -> bool {
    now - session.opened_at > SESSION_LIFETIME
}

/// The sessions once an expired one is gone.
pub open spec fn swept<A, I>(ring: SessionsView<A, I>, now: u64) -> SessionsView<A, I> {
    match ring.active {
        Some(session) if expired(session, now) => SessionsView { active: None, ..ring },
        _ => ring,
    }
}

/// The number after `id`, in wrapping arithmetic.
pub open spec fn id_after(id: u64) -> u64 {
    if id == u64::MAX {
        0
    } else {
        (id + 1) as u64
    }
}

/// What a layout shows, slot by slot.
pub open spec fn shown_slots<A, I>(layout: Map<u8, ActionRingEntry<A, I>>) -> Map<
    u8,
    ActionRingPresentation<I>,
> {
    layout.map_values(|entry: ActionRingEntry<A, I>| presented(entry))
}

/// What a layout does, slot by slot.
pub open spec fn slot_actions<A, I>(layout: Map<u8, ActionRingEntry<A, I>>) -> Map<u8, A> {
    layout.map_values(|entry: ActionRingEntry<A, I>| entry.action)
}

/// Whether a session with this id is open at `now`.
pub open spec fn is_open<A, I>(ring: SessionsView<A, I>, session_id: u64, now: u64) -> bool {
    swept(ring, now).active matches Some(session) && session.invocation.session_id == session_id
}

impl<A, I: Copy> Default for ActionRingManager<A, I> {
    fn default() -> (manager: Self)
        ensures
            manager@ == (SessionsView::<A, I> { next_session: 1, active: None }),
    {
        ActionRingManager { next_session: 1, active: None }
    }
}

impl<A, I: Copy> ActionRingManager<A, I> {
    /// Drop the session where it has outlived its time.
    fn expire(&mut self, now: u64)
        ensures
            final(self)@ == swept(old(self)@, now),
    {
        let over = match &self.active {
            Some(session) => now > session.opened_at && now - session.opened_at > SESSION_LIFETIME,
            None => false,
        };
        if over {
            self.active = None;
        }
    }

    /// A session number that was not used before.
    fn fresh_id(&mut self) -> (id: u64)
        ensures
            id == old(self)@.next_session,
            final(self)@ == (SessionsView { next_session: id_after(id), ..old(self)@ }),
    {
        let id = self.next_session;
        self.next_session = id.wrapping_add(1);
        id
    }

    /// Open a session in place of the one that is open, if any. Returns what
    /// the overlay is to show.
    pub fn begin(&mut self, spec: ActionRingSessionSpec<A, I>, now: u64) -> (invocation: ActionRingInvocation<I>)
        requires
            spec.layout.wf(),
        ensures
            invocation@ == (InvocationView {
                session_id: old(self)@.next_session,
                slots: shown_slots(spec.layout@),
                language: spec.language,
            }),
            final(self)@ == begun(old(self)@, spec, now),
    {
        let session_id = self.fresh_id();
        let mut entries = spec.layout.slots;
        let ghost layout = entries@;
        let mut actions: BTreeMap<u8, A> = BTreeMap::new();
        let mut slots: BTreeMap<u8, ActionRingPresentation<I>> = BTreeMap::new();
        for index in 0..SLOT_COUNT
            invariant
                forall|k: u8| #[trigger] layout.contains_key(k) ==> k < SLOT_COUNT,
                forall|k: u8|
                    k >= index ==> {
                        &&& #[trigger] entries@.contains_key(k) == layout.contains_key(k)
                        &&& layout.contains_key(k) ==> entries@[k] == layout[k]
                    },
                forall|k: u8| #[trigger]
                    slots@.contains_key(k) <==> k < index && layout.contains_key(k),
                forall|k: u8| #[trigger]
                    slots@.contains_key(k) ==> slots@[k] == presented(layout[k]),
                forall|k: u8| #[trigger]
                    actions@.contains_key(k) <==> k < index && layout.contains_key(k),
                forall|k: u8| #[trigger]
                    actions@.contains_key(k) ==> actions@[k] == layout[k].action,
        {
            assert(entries@.contains_key(index) == layout.contains_key(index));
            match entries.remove(&index) {
                Some(entry) => {
                    let literal = entry.custom_label.is_some();
                    let label = match entry.custom_label {
                        Some(label) => label,
                        None => entry.label,
                    };
                    let icon = match entry.custom_icon {
                        Some(icon) => icon,
                        None => entry.icon,
                    };
                    slots.insert(index, ActionRingPresentation { label, literal, icon });
                    actions.insert(index, entry.action);
                },
                None => {},
            }
        }
        let invocation = ActionRingInvocation { session_id, slots, language: spec.language };
        let session = Session {
            invocation: invocation.clone(),
            pending: true,
            device_key: spec.device_key,
            haptic_route: spec.haptic_route,
            actions,
            hovered: None,
            opened_at: now,
        };
        assert(invocation@.slots =~= shown_slots(layout));
        assert(session@.actions =~= slot_actions(layout));
        self.active = Some(session);
        invocation
    }

    /// Dismiss the showing session, and return whether one was showing. The
    /// overlay is told by an invocation without slots, in a session that
    /// shows nothing itself.
    pub fn dismiss_active(&mut self, now: u64) -> (dismissed: bool)
        ensures
            (final(self)@, dismissed) == dismissal(old(self)@, now),
    {
        self.expire(now);
        match self.active.take() {
            Some(session) => {
                if session.actions.is_empty() {
                    return false;
                }
                let session_id = self.fresh_id();
                self.active = Some(
                    Session {
                        invocation: ActionRingInvocation {
                            session_id,
                            slots: BTreeMap::new(),
                            language: None,
                        },
                        pending: true,
                        device_key: session.device_key,
                        haptic_route: session.haptic_route,
                        actions: BTreeMap::new(),
                        hovered: None,
                        opened_at: now,
                    },
                );
                true
            },
            None => false,
        }
    }

    /// Note the slot under the pointer. A report of the slot that is already
    /// noted is passed over, so a pointer at rest plays nothing.
    pub fn hover(
        &mut self,
        session_id: u64,
        slot: ActionRingSlot,
        now: u64,
    ) -> (hover: Result<Option<ActionRingHover>, ActionRingCommandError>)
        ensures
            hover == hover_answer(old(self)@, session_id, slot, now),
            final(self)@ == match hover {
                Ok(Some(_)) => SessionsView {
                    active: Some(
                        SessionView { hovered: Some(slot), ..old(self)@.active->0 },
                    ),
                    ..old(self)@
                },
                _ => swept(old(self)@, now),
            },
            final(self)@ == hovered(old(self)@, session_id, slot, now),
    {
        self.expire(now);
        match self.active.take() {
            Some(session) => {
                let mut session = session;
                let hover = if session.invocation.session_id != session_id {
                    Err(ActionRingCommandError::SessionNotFound)
                } else if !session.actions.contains_key(&slot.index()) {
                    Err(ActionRingCommandError::SlotEmpty)
                } else if session.hovered == Some(slot) {
                    Ok(None)
                } else {
                    session.hovered = Some(slot);
                    Ok(Some(ActionRingHover { haptic_route: clone_route(&session.haptic_route) }))
                };
                self.active = Some(session);
                hover
            },
            None => Err(ActionRingCommandError::SessionNotFound),
        }
    }

    /// Pick a slot: the session is over, and its action for the slot is
    /// returned.
    pub fn activate(
        &mut self,
        session_id: u64,
        slot: ActionRingSlot,
        now: u64,
    ) -> (activation: Result<ActionRingActivation<A>, ActionRingCommandError>)
        ensures
            activation == activate_answer(old(self)@, session_id, slot, now),
            final(self)@ == if activation is Ok {
                SessionsView { active: None, ..old(self)@ }
            } else {
                swept(old(self)@, now)
            },
            final(self)@ == activated(old(self)@, session_id, slot, now),
    {
        self.expire(now);
        match self.active.take() {
            Some(session) => {
                if session.invocation.session_id != session_id {
                    self.active = Some(session);
                    return Err(ActionRingCommandError::SessionNotFound);
                }
                if !session.actions.contains_key(&slot.index()) {
                    self.active = Some(session);
                    return Err(ActionRingCommandError::SlotEmpty);
                }
                let mut actions = session.actions;
                match actions.remove(&slot.index()) {
                    Some(action) => Ok(
                        ActionRingActivation {
                            device_key: session.device_key,
                            action,
                            haptic_route: session.haptic_route,
                        },
                    ),
                    None => Err(ActionRingCommandError::SlotEmpty),
                }
            },
            None => Err(ActionRingCommandError::SessionNotFound),
        }
    }

    /// Close the session with this id, if it is the one that is open.
    pub fn cancel(&mut self, session_id: u64)
        ensures
            final(self)@ == match old(self)@.active {
                Some(session) if session.invocation.session_id == session_id => SessionsView {
                    active: None,
                    ..old(self)@
                },
                _ => old(self)@,
            },
            final(self)@ == closed_session(old(self)@, session_id),
    {
        let ours = match &self.active {
            Some(session) => session.invocation.session_id == session_id,
            None => false,
        };
        if ours {
            self.active = None;
        }
    }

    /// What the overlay has yet to be told, once.
    pub fn take_pending(&mut self, now: u64) -> (invocation: Option<ActionRingInvocation<I>>)
        ensures
            match invocation {
                Some(invocation) => {
                    &&& !expired(old(self)@.active->0, now)
                    &&& old(self)@.active matches Some(session)
                    &&& session.pending
                    &&& invocation@ == session.invocation
                    &&& final(self)@ == SessionsView {
                        active: Some(SessionView { pending: false, ..session }),
                        ..old(self)@
                    }
                },
                None => {
                    &&& final(self)@ == swept(old(self)@, now)
                    &&& final(self)@.active matches Some(session) ==> !session.pending
                },
            },
            final(self)@ == told(old(self)@, now).0,
            invocation is Some == told(old(self)@, now).1 is Some,
            invocation matches Some(invocation) ==> told(old(self)@, now).1 == Some(invocation@),
    {
        self.expire(now);
        match self.active.take() {
            Some(session) => {
                let mut session = session;
                if !session.pending {
                    self.active = Some(session);
                    return None;
                }
                session.pending = false;
                let invocation = session.invocation.clone();
                self.active = Some(session);
                Some(invocation)
            },
            None => None,
        }
    }

    /// One round of a held poll: answer with what is to be shown, wait for a
    /// change, or give up once the hold has elapsed.
    pub fn poll_round(&mut self, wait: PollWait, now: u64) -> (step: PollStep<I>)
        ensures
            wait == PollWait::Elapsed ==> step is GiveUp && final(self)@ == old(self)@,
            wait != PollWait::Elapsed ==> match step {
                PollStep::Ready(invocation) => {
                    &&& old(self)@.active matches Some(session)
                    &&& session.pending
                    &&& !expired(session, now)
                    &&& invocation@ == session.invocation
                    &&& final(self)@ == SessionsView {
                        active: Some(SessionView { pending: false, ..session }),
                        ..old(self)@
                    }
                },
                PollStep::Wait => {
                    &&& final(self)@ == swept(old(self)@, now)
                    &&& final(self)@.active matches Some(session) ==> !session.pending
                },
                PollStep::GiveUp => false,
            },
            wait != PollWait::Elapsed ==> {
                &&& final(self)@ == told(old(self)@, now).0
                &&& step is Ready == told(old(self)@, now).1 is Some
                &&& step matches PollStep::Ready(invocation) ==> told(old(self)@, now).1 == Some(
                    invocation@,
                )
            },
    {
        match wait {
            PollWait::Elapsed => PollStep::GiveUp,
            PollWait::Fresh | PollWait::Changed => match self.take_pending(now) {
                Some(invocation) => PollStep::Ready(invocation),
                None => PollStep::Wait,
            },
        }
    }
}

/// How the wait of a held poll ended.
#[derive(Debug, Clone, Copy, PartialEq, Eq, Structural)]
pub enum PollWait {
    /// The poll has not waited yet.
    Fresh,
    /// The sessions changed.
    Changed,
    /// The hold elapsed.
    Elapsed,
}

/// What a held poll does next.
#[derive(Debug, PartialEq, Eq)]
pub enum PollStep<I> {
    Ready(ActionRingInvocation<I>),
    Wait,
    GiveUp,
}

/// The sessions after a new one was opened.
pub open spec fn begun<A, I: Copy>(
    ring: SessionsView<A, I>,
    spec: ActionRingSessionSpec<A, I>,
    now: u64,
) -> SessionsView<A, I> {
    SessionsView {
        next_session: id_after(ring.next_session),
        active: Some(
            SessionView {
                invocation: InvocationView {
                    session_id: ring.next_session,
                    slots: shown_slots(spec.layout@),
                    language: spec.language,
                },
                pending: true,
                device_key: spec.device_key,
                haptic_route: spec.haptic_route,
                actions: slot_actions(spec.layout@),
                hovered: None,
                opened_at: now,
            },
        ),
    }
}

/// Whether the open session has an older number than the next one will have.
pub open spec fn ids_in_order<A, I>(ring: SessionsView<A, I>) -> bool {
    ring.active matches Some(session) ==> session.invocation.session_id < ring.next_session
}

/// The sessions after the showing one was dismissed, and whether one was
/// showing.
pub open spec fn dismissal<A, I>(ring: SessionsView<A, I>, now: u64) -> (SessionsView<A, I>, bool) {
    match swept(ring, now).active {
        Some(session) if session.actions.dom().len() > 0 => (
            SessionsView {
                next_session: id_after(ring.next_session),
                active: Some(
                    SessionView {
                        invocation: InvocationView {
                            session_id: ring.next_session,
                            slots: Map::empty(),
                            language: None,
                        },
                        pending: true,
                        actions: Map::empty(),
                        hovered: None,
                        opened_at: now,
                        ..session
                    },
                ),
            },
            true,
        ),
        _ => (SessionsView { active: None, ..ring }, false),
    }
}

/// How a hover report is answered.
pub open spec fn hover_answer<A, I>(
    ring: SessionsView<A, I>,
    session_id: u64,
    slot: ActionRingSlot,
    now: u64,
) -> Result<Option<ActionRingHover>, ActionRingCommandError> {
    if !is_open(ring, session_id, now) {
        Err(ActionRingCommandError::SessionNotFound)
    } else {
        let session = ring.active->0;
        if !session.actions.contains_key(slot.index()) {
            Err(ActionRingCommandError::SlotEmpty)
        } else if session.hovered == Some(slot) {
            Ok(None)
        } else {
            Ok(Some(ActionRingHover { haptic_route: session.haptic_route }))
        }
    }
}

/// How a pick is answered.
pub open spec fn activate_answer<A, I>(
    ring: SessionsView<A, I>,
    session_id: u64,
    slot: ActionRingSlot,
    now: u64,
) -> Result<ActionRingActivation<A>, ActionRingCommandError> {
    if !is_open(ring, session_id, now) {
        Err(ActionRingCommandError::SessionNotFound)
    } else {
        let session = ring.active->0;
        if !session.actions.contains_key(slot.index()) {
            Err(ActionRingCommandError::SlotEmpty)
        } else {
            Ok(
                ActionRingActivation {
                    device_key: session.device_key,
                    action: session.actions[slot.index()],
                    haptic_route: session.haptic_route,
                },
            )
        }
    }
}

/// The sessions after a hover report.
pub open spec fn hovered<A, I>(
    ring: SessionsView<A, I>,
    session_id: u64,
    slot: ActionRingSlot,
    now: u64,
) -> SessionsView<A, I> {
    match hover_answer(ring, session_id, slot, now) {
        Ok(Some(_)) => SessionsView {
            active: Some(SessionView { hovered: Some(slot), ..ring.active->0 }),
            ..ring
        },
        _ => swept(ring, now),
    }
}

/// The sessions after a pick.
pub open spec fn activated<A, I>(
    ring: SessionsView<A, I>,
    session_id: u64,
    slot: ActionRingSlot,
    now: u64,
) -> SessionsView<A, I> {
    if activate_answer(ring, session_id, slot, now) is Ok {
        SessionsView { active: None, ..ring }
    } else {
        swept(ring, now)
    }
}

/// The sessions after the one with this id was closed.
pub open spec fn closed_session<A, I>(ring: SessionsView<A, I>, session_id: u64) -> SessionsView<
    A,
    I,
> {
    match ring.active {
        Some(session) if session.invocation.session_id == session_id => SessionsView {
            active: None,
            ..ring
        },
        _ => ring,
    }
}

/// The sessions after the overlay asked what to show, and what it is told.
pub open spec fn told<A, I>(ring: SessionsView<A, I>, now: u64) -> (
    SessionsView<A, I>,
    Option<InvocationView<I>>,
) {
    match swept(ring, now).active {
        Some(session) if session.pending => (
            SessionsView {
                active: Some(SessionView { pending: false, ..session }),
                ..ring
            },
            Some(session.invocation),
        ),
        _ => (swept(ring, now), None),
    }
}

/// The session stays open for as long as the ring is on screen, and a little
/// longer.
pub proof fn lemma_session_outlives_the_display()
    ensures
        SESSION_LIFETIME > DISPLAY_LIFETIME,
{
}

/// A pick uses the session up: no later command finds it.
pub proof fn lemma_activation_consumes_the_session<A, I>(
    ring: SessionsView<A, I>,
    session_id: u64,
    slot: ActionRingSlot,
    now: u64,
    next_slot: ActionRingSlot,
    later: u64,
)
    requires
        activate_answer(ring, session_id, slot, now) is Ok,
    ensures
        activate_answer(activated(ring, session_id, slot, now), session_id, next_slot, later)
            == Err::<ActionRingActivation<A>, ActionRingCommandError>(
            ActionRingCommandError::SessionNotFound,
        ),
        hover_answer(activated(ring, session_id, slot, now), session_id, next_slot, later) == Err::<
            Option<ActionRingHover>,
            ActionRingCommandError,
        >(ActionRingCommandError::SessionNotFound),
{
}

/// Of two reports of the same slot in a row, the second plays nothing.
pub proof fn lemma_repeated_hover_is_passed_over<A, I>(
    ring: SessionsView<A, I>,
    session_id: u64,
    slot: ActionRingSlot,
    now: u64,
    later: u64,
)
    requires
        hover_answer(ring, session_id, slot, now) is Ok,
        is_open(hovered(ring, session_id, slot, now), session_id, later),
    ensures
        hover_answer(hovered(ring, session_id, slot, now), session_id, slot, later) == Ok::<
            Option<ActionRingHover>,
            ActionRingCommandError,
        >(None),
{
}

/// Once another session is open, commands for the earlier one are refused.
pub proof fn lemma_other_sessions_are_refused<A, I>(
    ring: SessionsView<A, I>,
    session_id: u64,
    slot: ActionRingSlot,
    now: u64,
)
    requires
        ring.active matches Some(session) && session.invocation.session_id != session_id,
    ensures
        activate_answer(ring, session_id, slot, now) == Err::<
            ActionRingActivation<A>,
            ActionRingCommandError,
        >(ActionRingCommandError::SessionNotFound),
        hover_answer(ring, session_id, slot, now) == Err::<
            Option<ActionRingHover>,
            ActionRingCommandError,
        >(ActionRingCommandError::SessionNotFound),
{
}

/// Opening a session takes the place of the one before, whose commands are
/// refused from then on; and numbers stay in order until they run out.
pub proof fn lemma_replacement_invalidates_the_previous_session<A, I: Copy>(
    ring: SessionsView<A, I>,
    spec: ActionRingSessionSpec<A, I>,
    now: u64,
    slot: ActionRingSlot,
    later: u64,
)
    requires
        ids_in_order(ring),
        ring.active is Some,
    ensures
        activate_answer(
            begun(ring, spec, now),
            ring.active->0.invocation.session_id,
            slot,
            later,
        ) is Err,
        hover_answer(
            begun(ring, spec, now),
            ring.active->0.invocation.session_id,
            slot,
            later,
        ) is Err,
        ring.next_session < u64::MAX ==> ids_in_order(begun(ring, spec, now)) && ids_in_order(
            dismissal(ring, now).0,
        ),
{
}

/// A session that was just opened can be picked from until it expires, and the
/// pick returns the action that the layout had in the slot.
pub proof fn lemma_pick_returns_the_snapshotted_action<A, I: Copy>(
    ring: SessionsView<A, I>,
    spec: ActionRingSessionSpec<A, I>,
    now: u64,
    slot: ActionRingSlot,
    later: u64,
)
    requires
        spec.layout@.contains_key(slot.index()),
        later - now <= SESSION_LIFETIME,
    ensures
        activate_answer(begun(ring, spec, now), ring.next_session, slot, later) == Ok::<
            ActionRingActivation<A>,
            ActionRingCommandError,
        >(
            ActionRingActivation {
                device_key: spec.device_key,
                action: spec.layout@[slot.index()].action,
                haptic_route: spec.haptic_route,
            },
        ),
{
}

/// What is left of a dismissed ring is not showing: the next press opens a ring
/// again, and nothing in it can be picked.
pub proof fn lemma_dismissed_ring_is_not_showing<A, I>(
    ring: SessionsView<A, I>,
    now: u64,
    session_id: u64,
    slot: ActionRingSlot,
    later: u64,
)
    ensures
        !dismissal(dismissal(ring, now).0, later).1,
        activate_answer(dismissal(ring, now).0, session_id, slot, later) is Err,
{
}

/// A session that has outlived its time refuses every command.
pub proof fn lemma_expired_session_is_refused<A, I>(
    ring: SessionsView<A, I>,
    session_id: u64,
    slot: ActionRingSlot,
    now: u64,
)
    requires
        ring.active matches Some(session) && expired(session, now),
    ensures
        activate_answer(ring, session_id, slot, now) == Err::<
            ActionRingActivation<A>,
            ActionRingCommandError,
        >(ActionRingCommandError::SessionNotFound),
        hover_answer(ring, session_id, slot, now) == Err::<
            Option<ActionRingHover>,
            ActionRingCommandError,
        >(ActionRingCommandError::SessionNotFound),
        swept(ring, now).active is None,
{
}

} // verus!
