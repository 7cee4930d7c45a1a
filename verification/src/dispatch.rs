//! Command dispatch: which message goes to which outbound handle. The
//! dispatcher only decides; the caller puts each [`Delivery`] into the queue
//! that the handle names, and drops it without complaint where that queue
//! is closed.

use crate::fault::Fault;
use crate::message::{ServerMessage, ServerMessageView};
use crate::scalar::Scalar;
use crate::registry::{
    distinct_ids,
    halted,
    index_of,
    is_active,
    lemma_taken_out,
    registered,
    removed,
    well_formed,
    EntryView,
    Registry,
};
use vstd::prelude::*;

verus! {

/// One message on its way to one robot.
#[derive(Debug, PartialEq, Eq)]
pub struct Delivery {
    /// The robot addressed.
    pub target: String,
    /// The outbound handle of the robot's entry.
    pub handle: u64,
    pub message: ServerMessage,
}

/// What a [`Delivery`] is in specifications.
pub struct DeliveryView {
    pub target: Seq<char>,
    pub handle: nat,
    pub message: ServerMessageView,
}

impl View for Delivery {
    type V = DeliveryView;

    open spec fn view(&self) -> DeliveryView {
        DeliveryView {
            target: self.target@,
            handle: self.handle as nat,
            message: self.message@,
        }
    }
}

impl DeepView for Delivery {
    type V = DeliveryView;

    open spec fn deep_view(&self) -> DeliveryView {
        self@
    }
}

/// The highest speed limit that the hub hands out, in workspace units per
/// second; the lowest is zero.
pub const SPEED_LIMIT_MAX: u32 = 200;

/// The number is a speed limit that the hub hands out: a finite number from
/// zero to [`SPEED_LIMIT_MAX`].
pub open spec fn valid_speed_limit(limit: Scalar) -> bool {
    limit.finite() && !limit.is_below(0) && !limit.is_above(SPEED_LIMIT_MAX as int)
}

/// The order that sets the speed limit `limit`; none where the number is
/// not a speed limit that the hub hands out.
pub fn speed_limit_order(limit: Scalar) -> (r: Option<ServerMessage>)
    ensures
        match r {
            Some(message) => valid_speed_limit(limit) && message@
                == ServerMessageView::SetSpeedLimit(limit),
            None => !valid_speed_limit(limit),
        },
{
    if limit.is_finite() && !limit.below(0) && !limit.above(SPEED_LIMIT_MAX) {
        Some(ServerMessage::SetSpeedLimit(limit))
    } else {
        None
    }
}

/// The text of the warning that follows a forced stop.
pub open spec fn stop_warning() -> Seq<char> {
    "Collision/Boundary Risk!"@
}

/// `message` addressed to the entry `entry`.
pub open spec fn addressed(entry: EntryView, message: ServerMessageView) -> DeliveryView {
    DeliveryView { target: entry.state.id, handle: entry.outbound, message }
}

/// A broadcast of `message`: one delivery to every entry, in the order of
/// the entries.
pub open spec fn broadcast_to(entries: Seq<EntryView>, message: ServerMessageView) -> Seq<
    DeliveryView,
> {
    Seq::new(entries.len(), |i: int| addressed(entries[i], message))
}

/// A forced stop followed by the warning, both addressed to `entry`.
pub open spec fn stop_pair(entry: EntryView) -> Seq<DeliveryView> {
    seq![
        addressed(entry, ServerMessageView::ForceStop),
        addressed(entry, ServerMessageView::Warning(stop_warning())),
    ]
}

/// The stop order for the robot filed under `id`: a forced stop followed by
/// a warning, where the robot is registered and active; nothing otherwise.
pub open spec fn stop_order(entries: Seq<EntryView>, id: Seq<char>) -> Seq<DeliveryView> {
    if is_active(entries, id) {
        stop_pair(entries[index_of(entries, id)])
    } else {
        Seq::empty()
    }
}

/// The test "is addressed to the robot filed under `id`".
pub open spec fn targets(id: Seq<char>) -> spec_fn(DeliveryView) -> bool {
    |d: DeliveryView| d.target == id
}

/// The deliveries among `deliveries` that are addressed to the robot filed
/// under `id`, in their order.
pub open spec fn addressed_to(deliveries: Seq<DeliveryView>, id: Seq<char>) -> Seq<DeliveryView> {
    deliveries.filter(targets(id))
}

/// The entries after stop orders for the identifiers `ids`: each robot
/// named is marked as stopped.
pub open spec fn entries_after_stops(entries: Seq<EntryView>, ids: Seq<Seq<char>>) -> Seq<
    EntryView,
>
    decreases ids.len(),
{
    if ids.len() == 0 {
        entries
    } else {
        halted(entries_after_stops(entries, ids.drop_last()), ids.last())
    }
}

/// The stop orders for the identifiers `ids`, one after the other. Each
/// order marks its robot as stopped, so a robot that is named twice is
/// ordered once.
pub open spec fn stop_orders(entries: Seq<EntryView>, ids: Seq<Seq<char>>) -> Seq<DeliveryView>
    decreases ids.len(),
{
    if ids.len() == 0 {
        Seq::empty()
    } else {
        stop_orders(entries, ids.drop_last()) + stop_order(
            entries_after_stops(entries, ids.drop_last()),
            ids.last(),
        )
    }
}

/// A broadcast addresses nothing to a robot that is not registered.
pub proof fn lemma_broadcast_reaches_registered_only(
    entries: Seq<EntryView>,
    message: ServerMessageView,
    id: Seq<char>,
)
    requires
        !registered(entries, id),
    ensures
        addressed_to(broadcast_to(entries, message), id) == Seq::<DeliveryView>::empty(),
{
    let all = broadcast_to(entries, message);
    let mine = addressed_to(all, id);
    if mine.len() > 0 {
        all.lemma_filter_pred(targets(id), 0);
        assert(mine.contains(mine[0]));
        all.lemma_filter_contains_rev(targets(id), mine[0]);
        let k = choose|k: int| 0 <= k < all.len() && all[k] == mine[0];
        assert(entries[k].state.id == id);
    }
}

/// A broadcast addresses exactly one delivery to every registered robot:
/// the message, through the robot's own handle.
pub proof fn lemma_broadcast_reaches_each_once(
    entries: Seq<EntryView>,
    message: ServerMessageView,
    i: int,
)
    requires
        distinct_ids(entries),
        0 <= i < entries.len(),
    ensures
        addressed_to(broadcast_to(entries, message), entries[i].state.id) == seq![
            addressed(entries[i], message),
        ],
    decreases entries.len(),
{
    reveal_with_fuel(Seq::filter, 1);
    let id = entries[i].state.id;
    let all = broadcast_to(entries, message);
    let last = entries.len() - 1;
    let front = entries.drop_last();
    assert(all.drop_last() =~= broadcast_to(front, message));
    assert(distinct_ids(front)) by {
        assert forall|a: int, b: int| 0 <= a < b < front.len() implies (
        #[trigger] front[a]).state.id != (#[trigger] front[b]).state.id by {
            assert(entries[a].state.id != entries[b].state.id);
        }
    }
    if i == last {
        assert(!registered(front, id)) by {
            if registered(front, id) {
                let k = index_of(front, id);
                assert(entries[k].state.id != entries[last].state.id);
            }
        }
        lemma_broadcast_reaches_registered_only(front, message, id);
        assert(addressed_to(all, id) =~= seq![addressed(entries[i], message)]);
    } else {
        lemma_broadcast_reaches_each_once(front, message, i);
        assert(entries[i].state.id != entries[last].state.id);
        assert(front[i] == entries[i]);
    }
}

/// The reach of a broadcast: as many deliveries as there are entries; to
/// every registered robot exactly one, the message, through the robot's own
/// handle, whether the robot is active or stopped; and through every handle
/// at most one.
pub proof fn lemma_broadcast_reach(entries: Seq<EntryView>, message: ServerMessageView)
    requires
        well_formed(entries),
    ensures
        broadcast_to(entries, message).len() == entries.len(),
        forall|i: int|
            0 <= i < entries.len() ==> addressed_to(
                broadcast_to(entries, message),
                (#[trigger] entries[i]).state.id,
            ) == seq![addressed(entries[i], message)],
        forall|i: int, j: int|
            0 <= i < j < entries.len() ==> (#[trigger] broadcast_to(entries, message)[i]).handle
                != (#[trigger] broadcast_to(entries, message)[j]).handle,
{
    assert forall|i: int| 0 <= i < entries.len() implies addressed_to(
        broadcast_to(entries, message),
        (#[trigger] entries[i]).state.id,
    ) == seq![addressed(entries[i], message)] by {
        lemma_broadcast_reaches_each_once(entries, message, i);
    }
    assert forall|i: int, j: int| 0 <= i < j < entries.len() implies (#[trigger] broadcast_to(
        entries,
        message,
    )[i]).handle != (#[trigger] broadcast_to(entries, message)[j]).handle by {
        assert(entries[i].outbound != entries[j].outbound);
    }
}

/// A broadcast after a robot has left the registry: nothing is addressed to
/// the robot and nothing goes through its former handle, while every robot
/// that stayed gets the message once; there are as many deliveries as
/// entries are left.
pub proof fn lemma_broadcast_after_removal(
    entries: Seq<EntryView>,
    gone: Seq<char>,
    message: ServerMessageView,
)
    requires
        well_formed(entries),
        registered(entries, gone),
    ensures
        well_formed(removed(entries, gone)),
        broadcast_to(removed(entries, gone), message).len() == entries.len() - 1,
        addressed_to(broadcast_to(removed(entries, gone), message), gone) == Seq::<
            DeliveryView,
        >::empty(),
        forall|k: int|
            0 <= k < removed(entries, gone).len() ==> (#[trigger] broadcast_to(
                removed(entries, gone),
                message,
            )[k]).handle != entries[index_of(entries, gone)].outbound,
        forall|i: int|
            0 <= i < entries.len() && (#[trigger] entries[i]).state.id != gone ==> addressed_to(
                broadcast_to(removed(entries, gone), message),
                entries[i].state.id,
            ) == seq![addressed(entries[i], message)],
{
    let p = index_of(entries, gone);
    let after = removed(entries, gone);
    lemma_taken_out(entries, p);
    lemma_broadcast_reaches_registered_only(after, message, gone);
    assert forall|k: int| 0 <= k < after.len() implies (#[trigger] broadcast_to(
        after,
        message,
    )[k]).handle != entries[p].outbound by {
        assert(after[k].outbound != entries[p].outbound);
    }
    assert forall|i: int| 0 <= i < entries.len() && (#[trigger] entries[i]).state.id
        != gone implies addressed_to(broadcast_to(after, message), entries[i].state.id) == seq![
        addressed(entries[i], message),
    ] by {
        let i1 = if i < p { i } else { i - 1 };
        assert(after[i1] == entries[i]);
        lemma_broadcast_reaches_each_once(after, message, i1);
    }
}

/// Addresses `message` to the robot filed under `id`. A robot that is not
/// registered gives [`Fault::UnknownRoute`].
pub fn send_to(registry: &Registry, id: &String, message: ServerMessage) -> (r: Result<
    Delivery,
    Fault,
>)
    requires
        registry.wf(),
    ensures
        match r {
            Ok(delivery) => registered(registry@, id@) && delivery@ == addressed(
                registry@[index_of(registry@, id@)],
                message@,
            ),
            Err(fault) => !registered(registry@, id@) && fault == Fault::UnknownRoute,
        },
{
    match registry.get(id) {
        Some(entry) => Ok(
            Delivery { target: entry.state.id.clone(), handle: entry.outbound, message },
        ),
        None => Err(Fault::UnknownRoute),
    }
}

/// Addresses a copy of `message` to every live robot, in the order of the
/// entries.
pub fn send_to_all(registry: &Registry, message: &ServerMessage) -> (r: Vec<Delivery>)
    ensures
        r.deep_view() == broadcast_to(registry@, message@),
        r.len() == registry@.len(),
{
    let entries = registry.entries();
    let mut r: Vec<Delivery> = Vec::new();
    let mut i: usize = 0;
    while i < entries.len()
        invariant
            i <= entries.len(),
            entries@.len() == registry@.len(),
            forall|k: int| 0 <= k < entries@.len() ==> (#[trigger] entries@[k])@ == registry@[k],
            r@.len() == i,
            forall|k: int|
                0 <= k < i ==> (#[trigger] r@[k])@ == addressed(registry@[k], message@),
        decreases entries.len() - i,
    {
        let entry = &entries[i];
        r.push(
            Delivery {
                target: entry.state.id.clone(),
                handle: entry.outbound,
                message: message.clone(),
            },
        );
        i = i + 1;
    }
    assert(r.deep_view() =~= broadcast_to(registry@, message@));
    r
}

/// Issues the stop order for one robot and marks the robot as stopped: see
/// [`stop_order`] and [`halted`].
fn push_stop_order(registry: &mut Registry, id: &String, out: &mut Vec<Delivery>)
    requires
        old(registry).wf(),
    ensures
        final(registry).wf(),
        final(registry)@ == halted(old(registry)@, id@),
        final(out).deep_view() == old(out).deep_view() + stop_order(old(registry)@, id@),
{
    let ghost before = out.deep_view();
    let ghost entries = registry@;
    match registry.halt(id) {
        Some(handle) => {
            out.push(Delivery { target: id.clone(), handle, message: ServerMessage::ForceStop });
            out.push(
                Delivery {
                    target: id.clone(),
                    handle,
                    message: ServerMessage::Warning("Collision/Boundary Risk!".to_owned()),
                },
            );
        },
        None => {},
    }
    assert(out.deep_view() =~= before + stop_order(entries, id@));
}

/// Stop orders for the robots named in `ids`, one after the other: a forced
/// stop followed by a warning for each robot that is registered and active,
/// which from then on counts as stopped. A robot that has left the registry
/// since it was named, or that is already stopped, gets nothing.
pub fn stop_flagged(registry: &mut Registry, ids: &Vec<String>) -> (r: Vec<Delivery>)
    requires
        old(registry).wf(),
    ensures
        final(registry).wf(),
        final(registry)@ == entries_after_stops(old(registry)@, ids.deep_view()),
        r.deep_view() == stop_orders(old(registry)@, ids.deep_view()),
{
    let ghost entries = registry@;
    let mut r: Vec<Delivery> = Vec::new();
    let mut i: usize = 0;
    assert(ids.deep_view().take(0) =~= Seq::<Seq<char>>::empty());
    while i < ids.len()
        invariant
            registry.wf(),
            i <= ids.len(),
            registry@ == entries_after_stops(entries, ids.deep_view().take(i as int)),
            r.deep_view() == stop_orders(entries, ids.deep_view().take(i as int)),
        decreases ids.len() - i,
    {
        push_stop_order(registry, &ids[i], &mut r);
        proof {
            let next = ids.deep_view().take(i + 1);
            assert(next.drop_last() =~= ids.deep_view().take(i as int));
            assert(next.last() == ids[i as int]@);
        }
        i = i + 1;
    }
    assert(ids.deep_view().take(ids.len() as int) =~= ids.deep_view());
    r
}

} // verus!
