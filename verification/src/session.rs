//! The inbound side of one connection, as a state machine. The caller reads
//! one record at a time from the connection, decodes it and hands the
//! outcome to [`Session::receive`]; when a step ends the session, or the
//! outbound side reports a broken link, the caller hands the session to
//! [`Session::close`], which consumes it: cleanup happens once.
//!
//! A session is known to the registry by its number. A robot that a
//! session registers is that session's robot until the session is closed,
//! under whatever identifiers the session reports afterwards; no other
//! session's end removes it. A report under an identifier that another
//! session registered updates that robot in place and leaves it with its
//! owner.

use crate::dispatch::{
    addressed_to,
    broadcast_to,
    lemma_broadcast_reaches_registered_only,
    DeliveryView,
};
use crate::fault::Fault;
use crate::message::{ClientMessage, ClientMessageView, RobotStateView, ServerMessageView};
use crate::monitor::{lemma_pass_reaches_registered_only, pass};
use crate::registry::{
    leavers,
    filed,
    index_of,
    lemma_filed_frame,
    lemma_filed_well_formed,
    lemma_index_of,
    lemma_released_drops,
    lemma_released_frame,
    lemma_released_well_formed,
    registered,
    released,
    serves,
    well_formed,
    Leaver,
    EntryView,
    Registry,
};
use vstd::prelude::*;

verus! {

/// What one read on the connection brought.
#[derive(Debug, PartialEq, Eq)]
pub enum Inbound {
    /// A record that decoded to a message.
    Message(ClientMessage),
    /// A record that did not decode: empty, truncated, or not a message.
    Malformed,
    /// The peer closed the connection.
    EndOfStream,
    /// The read failed.
    ReadFailed,
}

/// What an [`Inbound`] is in specifications.
pub enum InboundView {
    Message(ClientMessageView),
    Malformed,
    EndOfStream,
    ReadFailed,
}

impl View for Inbound {
    type V = InboundView;

    open spec fn view(&self) -> InboundView {
        match self {
            Inbound::Message(message) => InboundView::Message(message@),
            Inbound::Malformed => InboundView::Malformed,
            Inbound::EndOfStream => InboundView::EndOfStream,
            Inbound::ReadFailed => InboundView::ReadFailed,
        }
    }
}

/// Why a session ended.
#[derive(Clone, Copy, Debug, PartialEq, Eq, Structural)]
pub enum Ending {
    /// The robot said that it disconnects.
    Disconnected,
    /// The peer closed the connection.
    EndOfStream,
    /// Reading or writing failed.
    LinkBroken,
}

impl Ending {
    /// The fault that ended the session; none where the session ended in
    /// good order.
    pub open spec fn fault_of(self) -> Option<Fault> {
        match self {
            Ending::LinkBroken => Some(Fault::LinkBroken),
            _ => None,
        }
    }

    /// The fault that ended the session, if one did.
    pub fn fault(&self) -> (r: Option<Fault>)
        ensures
            r == self.fault_of(),
    {
        match self {
            Ending::LinkBroken => Some(Fault::LinkBroken),
            Ending::Disconnected => None,
            Ending::EndOfStream => None,
        }
    }
}

/// What the caller does after a step.
#[derive(Clone, Copy, Debug, PartialEq, Eq, Structural)]
pub enum Step {
    /// A report was filed. `created` says whether it registered the robot,
    /// `handle` is the outbound handle of the robot's entry. Read on.
    Accepted { created: bool, handle: u64 },
    /// The record was skipped on account of the fault. Read on.
    Skipped(Fault),
    /// Stop reading and close the session.
    Ended(Ending),
}

/// The inbound side of one connection.
pub struct Session {
    number: u64,
}

/// What a [`Session`] is in specifications.
pub struct SessionView {
    /// The number by which the registry knows the session.
    pub number: u64,
}

impl View for Session {
    type V = SessionView;

    closed spec fn view(&self) -> SessionView {
        SessionView { number: self.number }
    }
}

/// The entries after an event on the session `session` at time `now`. Only
/// a report changes them, and a report removes nothing.
pub open spec fn entries_after(
    session: SessionView,
    entries: Seq<EntryView>,
    event: InboundView,
    now: u64,
) -> Seq<EntryView> {
    match event {
        InboundView::Message(ClientMessageView::Telemetry(state)) => filed(
            entries,
            state,
            now,
            session.number,
        ),
        _ => entries,
    }
}

/// What the caller is told after an event on the session `session` at time
/// `now`.
pub open spec fn step_after(
    session: SessionView,
    entries: Seq<EntryView>,
    event: InboundView,
    now: u64,
) -> Step {
    match event {
        InboundView::Message(ClientMessageView::Telemetry(state)) => {
            let after = filed(entries, state, now, session.number);
            Step::Accepted {
                created: !registered(entries, state.id),
                handle: after[index_of(after, state.id)].outbound as u64,
            }
        },
        InboundView::Message(ClientMessageView::Disconnect(_)) => Step::Ended(
            Ending::Disconnected,
        ),
        InboundView::Malformed => Step::Skipped(Fault::MalformedMessage),
        InboundView::EndOfStream => Step::Ended(Ending::EndOfStream),
        InboundView::ReadFailed => Step::Ended(Ending::LinkBroken),
    }
}

/// The entries after the session `session` has been closed: without the
/// robots that the session registered.
pub open spec fn entries_after_close(session: SessionView, entries: Seq<EntryView>) -> Seq<
    EntryView,
> {
    released(entries, session.number)
}

/// One event on a session, with the time at which it arrived.
pub struct Event {
    pub inbound: InboundView,
    pub now: u64,
}

/// The entries after the events `events` on the session `session`, first to
/// last.
pub open spec fn after_events(
    session: SessionView,
    entries: Seq<EntryView>,
    events: Seq<Event>,
) -> Seq<EntryView>
    decreases events.len(),
{
    if events.len() == 0 {
        entries
    } else {
        entries_after(
            session,
            after_events(session, entries, events.drop_last()),
            events.last().inbound,
            events.last().now,
        )
    }
}

/// Owner and outbound handle of the robot filed under `id`; nothing where
/// no such robot is filed.
pub open spec fn standing(entries: Seq<EntryView>, id: Seq<char>) -> Option<(u64, nat)> {
    if registered(entries, id) {
        Some((entries[index_of(entries, id)].owner, entries[index_of(entries, id)].outbound))
    } else {
        None
    }
}

/// Owner and outbound handle of the robot filed under `id`, where it
/// belongs to another session than `session`.
pub open spec fn foreign(entries: Seq<EntryView>, session: u64, id: Seq<char>) -> Option<
    (u64, nat),
> {
    if registered(entries, id) && entries[index_of(entries, id)].owner != session {
        standing(entries, id)
    } else {
        None
    }
}

/// No entry belongs to the session `session`.
pub open spec fn owns_nothing(entries: Seq<EntryView>, session: u64) -> bool {
    forall|i: int| 0 <= i < entries.len() ==> (#[trigger] entries[i]).owner != session
}

impl Session {
    /// The session of a connection that was just accepted. The number must
    /// be one that no other session has had.
    pub fn open(number: u64) -> (r: Session)
        ensures
            r@ == (SessionView { number }),
    {
        Session { number }
    }

    /// The number by which the registry knows the session.
    pub fn number(&self) -> (r: u64)
        ensures
            r == self@.number,
    {
        self.number
    }

    /// One step of the inbound loop. A report is filed in the registry; a
    /// robot that it registers is the session's robot from then on, and no
    /// entry leaves. A record that did not decode is skipped; a disconnect
    /// message, the end of the stream and a failed read end the session and
    /// leave the registry to [`Session::close`].
    pub fn receive(&self, registry: &mut Registry, event: Inbound, now: u64) -> (step: Step)
        requires
            old(registry).wf(),
        ensures
            final(registry).wf(),
            final(registry)@ == entries_after(self@, old(registry)@, event@, now),
            step == step_after(self@, old(registry)@, event@, now),
    {
        match event {
            Inbound::Message(ClientMessage::Telemetry(state)) => {
                let filing = registry.upsert(state, now, self.number);
                Step::Accepted { created: filing.created, handle: filing.handle }
            },
            Inbound::Message(ClientMessage::Disconnect(_)) => Step::Ended(Ending::Disconnected),
            Inbound::Malformed => Step::Skipped(Fault::MalformedMessage),
            Inbound::EndOfStream => Step::Ended(Ending::EndOfStream),
            Inbound::ReadFailed => Step::Ended(Ending::LinkBroken),
        }
    }

    /// Cleanup at the end of a session: every robot that the session
    /// registered leaves the registry, and the robots of other sessions
    /// stay as they are. Returns the robots that left, with the handles
    /// that they had.
    pub fn close(self, registry: &mut Registry) -> (gone: Vec<Leaver>)
        requires
            old(registry).wf(),
        ensures
            final(registry).wf(),
            final(registry)@ == entries_after_close(self@, old(registry)@),
            owns_nothing(final(registry)@, self@.number),
            gone.deep_view() == leavers(old(registry)@, self@.number),
    {
        proof {
            lemma_released_well_formed(registry@, self.number);
        }
        registry.release(self.number)
    }
}

/// A report removes nothing and leaves its robot registered: under an
/// unknown identifier it adds exactly one entry, which belongs to the
/// session; under a known identifier the number of entries stays.
pub proof fn lemma_report_registers(
    session: SessionView,
    entries: Seq<EntryView>,
    state: RobotStateView,
    now: u64,
)
    requires
        well_formed(entries),
    ensures
        ({
            let event = InboundView::Message(ClientMessageView::Telemetry(state));
            let after = entries_after(session, entries, event, now);
            &&& well_formed(after)
            &&& registered(after, state.id)
            &&& registered(entries, state.id) ==> after.len() == entries.len()
            &&& !registered(entries, state.id) ==> after.len() == entries.len() + 1
                && after[index_of(after, state.id)].owner == session.number
        }),
{
    lemma_filed_well_formed(entries, state, now, session.number);
}

/// A report changes nothing of what other sessions own.
pub proof fn lemma_report_keeps_owners(
    session: SessionView,
    entries: Seq<EntryView>,
    state: RobotStateView,
    now: u64,
    id: Seq<char>,
)
    requires
        well_formed(entries),
    ensures
        foreign(filed(entries, state, now, session.number), session.number, id) == foreign(
            entries,
            session.number,
            id,
        ),
{
    lemma_filed_well_formed(entries, state, now, session.number);
    if id != state.id {
        lemma_filed_frame(entries, state, now, session.number, id);
    }
}

/// Whatever a session receives, the robots of other sessions keep their
/// owners and their handles.
proof fn lemma_events_keep_owners(session: SessionView, start: Seq<EntryView>, events: Seq<Event>)
    requires
        well_formed(start),
    ensures
        well_formed(after_events(session, start, events)),
        forall|id: Seq<char>| #[trigger]
            foreign(after_events(session, start, events), session.number, id) == foreign(
                start,
                session.number,
                id,
            ),
    decreases events.len(),
{
    if events.len() > 0 {
        let middle = after_events(session, start, events.drop_last());
        lemma_events_keep_owners(session, start, events.drop_last());
        match events.last().inbound {
            InboundView::Message(ClientMessageView::Telemetry(state)) => {
                lemma_filed_well_formed(middle, state, events.last().now, session.number);
                assert forall|id: Seq<char>| #[trigger]
                    foreign(after_events(session, start, events), session.number, id) == foreign(
                        start,
                        session.number,
                        id,
                    ) by {
                    lemma_report_keeps_owners(session, middle, state, events.last().now, id);
                    assert(foreign(middle, session.number, id) == foreign(
                        start,
                        session.number,
                        id,
                    ));
                }
            },
            _ => {},
        }
    }
}

/// A session leaves nothing behind. Whatever a session has received since
/// it was opened, under however many identifiers it reported, once it is
/// closed the registry holds no robot of that session; and the robots of
/// other sessions are registered as before, with their owners and their
/// handles. A registry that was empty when the session was opened is empty
/// again.
pub proof fn lemma_session_leaves_nothing(
    session: SessionView,
    start: Seq<EntryView>,
    events: Seq<Event>,
)
    requires
        well_formed(start),
        owns_nothing(start, session.number),
    ensures
        well_formed(after_events(session, start, events)),
        well_formed(entries_after_close(session, after_events(session, start, events))),
        owns_nothing(
            entries_after_close(session, after_events(session, start, events)),
            session.number,
        ),
        forall|id: Seq<char>| #[trigger]
            standing(entries_after_close(session, after_events(session, start, events)), id)
                == standing(start, id),
        start.len() == 0 ==> entries_after_close(
            session,
            after_events(session, start, events),
        ).len() == 0,
{
    let last = after_events(session, start, events);
    let end = entries_after_close(session, last);
    lemma_events_keep_owners(session, start, events);
    lemma_released_well_formed(last, session.number);
    assert forall|id: Seq<char>| #[trigger] standing(end, id) == standing(start, id) by {
        lemma_released_frame(last, session.number, id);
        assert(foreign(last, session.number, id) == foreign(start, session.number, id));
    }
    if start.len() == 0 && end.len() > 0 {
        assert(registered(end, end[0].state.id));
        assert(standing(end, end[0].state.id) == standing(start, end[0].state.id));
    }
}

/// After a session has been closed none of its robots is registered, no
/// entry has a handle that one of them had, and neither a message to all
/// nor a pass of the safety monitor addresses anything to them.
pub proof fn lemma_closed_session_is_unreachable(
    session: SessionView,
    entries: Seq<EntryView>,
    id: Seq<char>,
    message: ServerMessageView,
)
    requires
        well_formed(entries),
        registered(entries, id),
        entries[index_of(entries, id)].owner == session.number,
    ensures
        well_formed(entries_after_close(session, entries)),
        !registered(entries_after_close(session, entries), id),
        !serves(entries_after_close(session, entries), entries[index_of(entries, id)].outbound),
        addressed_to(broadcast_to(entries_after_close(session, entries), message), id) == Seq::<
            DeliveryView,
        >::empty(),
        forall|k: int|
            0 <= k < entries_after_close(session, entries).len() ==> (#[trigger] broadcast_to(
                entries_after_close(session, entries),
                message,
            )[k]).handle != entries[index_of(entries, id)].outbound,
        addressed_to(pass(entries_after_close(session, entries)), id) == Seq::<
            DeliveryView,
        >::empty(),
{
    let after = entries_after_close(session, entries);
    let i = index_of(entries, id);
    lemma_index_of(entries, i);
    lemma_released_well_formed(entries, session.number);
    lemma_released_drops(entries, session.number, i);
    lemma_broadcast_reaches_registered_only(after, message, id);
    lemma_pass_reaches_registered_only(after, id);
    assert forall|k: int| 0 <= k < after.len() implies (#[trigger] broadcast_to(
        after,
        message,
    )[k]).handle != entries[i].outbound by {
        assert(after[k].outbound != entries[i].outbound);
    }
}

} // verus!
