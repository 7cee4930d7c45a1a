//! The safety monitor: one pass takes a snapshot of the registry, applies
//! the safety rules to it and issues stop orders to the robots that break
//! one and are still active. A robot that is ordered to stop counts as
//! stopped from then on, until it reports otherwise.

use crate::dispatch::{
    addressed_to,
    entries_after_stops,
    stop_flagged,
    stop_order,
    stop_orders,
    stop_pair,
    targets,
    Delivery,
    DeliveryView,
};
use crate::message::RobotStateView;
use crate::position::{square_of_difference, Position};
use crate::registry::{
    halted,
    index_of,
    is_active,
    lemma_halted_well_formed,
    lemma_index_of,
    registered,
    sightings,
    well_formed,
    EntryView,
    Registry,
    SightingView,
};
use crate::safety::{crowded, flagged, flagged_ids, near_boundary, scan, too_close};
use vstd::prelude::*;

verus! {

/// What one pass of the monitor issues: the stop orders for the flagged
/// robots of the snapshot, in the order of the entries.
pub open spec fn pass(entries: Seq<EntryView>) -> Seq<DeliveryView> {
    stop_orders(entries, flagged_ids(sightings(entries), entries.len() as int))
}

/// The entries after one pass of the monitor.
pub open spec fn after_pass(entries: Seq<EntryView>) -> Seq<EntryView> {
    entries_after_stops(entries, flagged_ids(sightings(entries), entries.len() as int))
}

/// The entries with every flagged robot among the first `n` marked as
/// stopped.
pub open spec fn stopped_where_flagged(entries: Seq<EntryView>, n: int) -> Seq<EntryView> {
    Seq::new(
        entries.len(),
        |k: int|
            if k < n && flagged(sightings(entries), k) {
                EntryView {
                    state: RobotStateView { active: false, ..entries[k].state },
                    ..entries[k]
                }
            } else {
                entries[k]
            },
    )
}

/// One pass of the safety monitor. Every robot that is flagged by a rule
/// and active gets a forced stop followed by a warning, once, and counts as
/// stopped from then on; every other robot gets nothing and stays as it is.
pub fn monitor_pass(registry: &mut Registry) -> (r: Vec<Delivery>)
    requires
        old(registry).wf(),
    ensures
        final(registry).wf(),
        r.deep_view() == pass(old(registry)@),
        final(registry)@ == after_pass(old(registry)@),
{
    let snapshot = registry.snapshot();
    let ids = scan(&snapshot);
    stop_flagged(registry, &ids)
}

/// Of a forced stop and its warning, a test on the addressee keeps both or
/// neither.
proof fn lemma_filter_stop_pair(entry: EntryView, id: Seq<char>)
    ensures
        addressed_to(stop_pair(entry), id) == if entry.state.id == id {
            stop_pair(entry)
        } else {
            Seq::empty()
        },
{
    reveal_with_fuel(Seq::filter, 3);
    let pair = stop_pair(entry);
    assert(pair.drop_last() =~= seq![pair[0]]);
    assert(pair.drop_last().drop_last() =~= Seq::<DeliveryView>::empty());
    assert(pair.filter(targets(id)) =~= if entry.state.id == id {
        pair
    } else {
        Seq::empty()
    });
}

/// Stop orders leave the number of entries and their identifiers as they
/// are.
pub proof fn lemma_stops_keep_ids(entries: Seq<EntryView>, ids: Seq<Seq<char>>, id: Seq<char>)
    ensures
        entries_after_stops(entries, ids).len() == entries.len(),
        forall|k: int|
            0 <= k < entries.len() ==> (#[trigger] entries_after_stops(entries, ids)[k]).state.id
                == entries[k].state.id,
        registered(entries_after_stops(entries, ids), id) == registered(entries, id),
    decreases ids.len(),
{
    let after = entries_after_stops(entries, ids);
    if ids.len() > 0 {
        let middle = entries_after_stops(entries, ids.drop_last());
        lemma_stops_keep_ids(entries, ids.drop_last(), id);
        assert forall|k: int| 0 <= k < entries.len() implies (#[trigger] after[k]).state.id
            == entries[k].state.id by {
            assert(middle[k].state.id == entries[k].state.id);
        }
    }
    if registered(after, id) {
        let k = index_of(after, id);
        assert(entries[k].state.id == id);
    }
    if registered(entries, id) {
        let k = index_of(entries, id);
        assert(after[k].state.id == id);
    }
}

/// No stop order is addressed to a robot that is not registered.
pub proof fn lemma_orders_reach_registered_only(
    entries: Seq<EntryView>,
    ids: Seq<Seq<char>>,
    id: Seq<char>,
)
    requires
        !registered(entries, id),
    ensures
        addressed_to(stop_orders(entries, ids), id) == Seq::<DeliveryView>::empty(),
    decreases ids.len(),
{
    reveal_with_fuel(Seq::filter, 1);
    if ids.len() > 0 {
        let middle = entries_after_stops(entries, ids.drop_last());
        lemma_orders_reach_registered_only(entries, ids.drop_last(), id);
        lemma_stops_keep_ids(entries, ids.drop_last(), id);
        Seq::filter_distributes_over_add(
            stop_orders(entries, ids.drop_last()),
            stop_order(middle, ids.last()),
            targets(id),
        );
        if registered(middle, ids.last()) {
            lemma_filter_stop_pair(middle[index_of(middle, ids.last())], id);
        }
    }
}

/// Marking flagged robots as stopped keeps the entries well formed and
/// leaves what the safety rules see as it is.
proof fn lemma_stopped_where_flagged(entries: Seq<EntryView>, n: int)
    requires
        well_formed(entries),
    ensures
        well_formed(stopped_where_flagged(entries, n)),
        sightings(stopped_where_flagged(entries, n)) == sightings(entries),
{
    let marked = stopped_where_flagged(entries, n);
    assert(sightings(marked) =~= sightings(entries));
    assert forall|a: int, b: int| 0 <= a < b < marked.len() implies (#[trigger] marked[a]).state.id
        != (#[trigger] marked[b]).state.id && marked[a].outbound != marked[b].outbound by {
        assert(entries[a].state.id != entries[b].state.id);
        assert(entries[a].outbound != entries[b].outbound);
    }
    assert forall|a: int| 0 <= a < marked.len() implies 1 <= (#[trigger] marked[a]).trail.len()
        <= crate::registry::TRAIL_LENGTH by {
        assert(1 <= entries[a].trail.len() <= crate::registry::TRAIL_LENGTH);
    }
}

/// The entries after the stop orders that the first `n` entries give rise
/// to.
proof fn lemma_entries_after_prefix(entries: Seq<EntryView>, n: int)
    requires
        well_formed(entries),
        0 <= n <= entries.len(),
    ensures
        entries_after_stops(entries, flagged_ids(sightings(entries), n)) == stopped_where_flagged(
            entries,
            n,
        ),
    decreases n,
{
    let snapshot = sightings(entries);
    if n == 0 {
        assert(stopped_where_flagged(entries, 0) =~= entries);
    } else {
        lemma_entries_after_prefix(entries, n - 1);
        let earlier = flagged_ids(snapshot, n - 1);
        let middle = stopped_where_flagged(entries, n - 1);
        if flagged(snapshot, n - 1) {
            let ids = earlier.push(snapshot[n - 1].id);
            assert(ids.drop_last() =~= earlier);
            lemma_stopped_where_flagged(entries, n - 1);
            assert(middle[n - 1].state.id == ids.last());
            lemma_index_of(middle, n - 1);
            assert(halted(middle, ids.last()) =~= stopped_where_flagged(entries, n));
        } else {
            assert(middle =~= stopped_where_flagged(entries, n));
        }
    }
}

/// The stop orders that the first `n` entries give rise to, as far as they
/// are addressed to entry `i`.
proof fn lemma_orders_of_prefix(entries: Seq<EntryView>, n: int, i: int)
    requires
        well_formed(entries),
        0 <= n <= entries.len(),
        0 <= i < entries.len(),
    ensures
        addressed_to(
            stop_orders(entries, flagged_ids(sightings(entries), n)),
            entries[i].state.id,
        ) == if i < n && entries[i].state.active && flagged(sightings(entries), i) {
            stop_pair(entries[i])
        } else {
            Seq::empty()
        },
    decreases n,
{
    let snapshot = sightings(entries);
    let id = entries[i].state.id;
    reveal_with_fuel(Seq::filter, 1);
    if n > 0 {
        lemma_orders_of_prefix(entries, n - 1, i);
        let earlier = flagged_ids(snapshot, n - 1);
        if flagged(snapshot, n - 1) {
            let ids = earlier.push(snapshot[n - 1].id);
            let middle = stopped_where_flagged(entries, n - 1);
            assert(ids.drop_last() =~= earlier);
            assert(ids.last() == entries[n - 1].state.id);
            lemma_entries_after_prefix(entries, n - 1);
            lemma_stopped_where_flagged(entries, n - 1);
            Seq::filter_distributes_over_add(
                stop_orders(entries, earlier),
                stop_order(middle, ids.last()),
                targets(id),
            );
            assert(middle[n - 1] == entries[n - 1]);
            lemma_index_of(middle, n - 1);
            lemma_index_of(entries, i);
            lemma_filter_stop_pair(entries[n - 1], id);
            if i != n - 1 {
                assert(entries[n - 1].state.id != id);
            }
        }
    }
}

/// What a pass sends to one robot. A registered robot that is active and
/// flagged is sent a forced stop and then the warning, once, through its
/// own handle; any other robot is sent nothing.
pub proof fn lemma_pass_orders(entries: Seq<EntryView>, i: int)
    requires
        well_formed(entries),
        0 <= i < entries.len(),
    ensures
        addressed_to(pass(entries), entries[i].state.id) == if entries[i].state.active && flagged(
            sightings(entries),
            i,
        ) {
            stop_pair(entries[i])
        } else {
            Seq::empty()
        },
{
    lemma_orders_of_prefix(entries, entries.len() as int, i);
}

/// What a pass leaves behind: every flagged robot is marked as stopped and
/// nothing else has changed. In particular the entries are still well
/// formed, and the safety rules see what they saw before.
pub proof fn lemma_after_pass(entries: Seq<EntryView>)
    requires
        well_formed(entries),
    ensures
        after_pass(entries) == stopped_where_flagged(entries, entries.len() as int),
        well_formed(after_pass(entries)),
        sightings(after_pass(entries)) == sightings(entries),
{
    lemma_entries_after_prefix(entries, entries.len() as int);
    lemma_stopped_where_flagged(entries, entries.len() as int);
}

/// A pass sends nothing to a robot that is already stopped, whatever rules
/// it breaks.
pub proof fn lemma_stopped_robot_hears_nothing(entries: Seq<EntryView>, i: int)
    requires
        well_formed(entries),
        0 <= i < entries.len(),
        !entries[i].state.active,
    ensures
        addressed_to(pass(entries), entries[i].state.id) == Seq::<DeliveryView>::empty(),
{
    lemma_pass_orders(entries, i);
}

/// A pass sends nothing to a robot that is not registered.
pub proof fn lemma_pass_reaches_registered_only(entries: Seq<EntryView>, id: Seq<char>)
    requires
        !registered(entries, id),
    ensures
        addressed_to(pass(entries), id) == Seq::<DeliveryView>::empty(),
{
    lemma_orders_reach_registered_only(
        entries,
        flagged_ids(sightings(entries), entries.len() as int),
        id,
    );
}

/// Where every flagged robot among the first `n` is already stopped, the
/// stop orders for them are empty and change nothing.
proof fn lemma_silent_prefix(entries: Seq<EntryView>, n: int)
    requires
        well_formed(entries),
        0 <= n <= entries.len(),
        forall|k: int|
            0 <= k < entries.len() && flagged(sightings(entries), k) ==> !(
            #[trigger] entries[k]).state.active,
    ensures
        stop_orders(entries, flagged_ids(sightings(entries), n)) == Seq::<DeliveryView>::empty(),
        entries_after_stops(entries, flagged_ids(sightings(entries), n)) == entries,
    decreases n,
{
    let snapshot = sightings(entries);
    if n > 0 {
        lemma_silent_prefix(entries, n - 1);
        let earlier = flagged_ids(snapshot, n - 1);
        if flagged(snapshot, n - 1) {
            let ids = earlier.push(snapshot[n - 1].id);
            assert(ids.drop_last() =~= earlier);
            lemma_index_of(entries, n - 1);
            assert(!entries[n - 1].state.active);
            assert(halted(entries, ids.last()) =~= entries);
            assert(stop_orders(entries, ids) =~= Seq::<DeliveryView>::empty());
        }
    }
}

/// A pass over robots of which every flagged one is already stopped sends
/// nothing and changes nothing.
pub proof fn lemma_pass_over_stopped_is_silent(entries: Seq<EntryView>)
    requires
        well_formed(entries),
        forall|k: int|
            0 <= k < entries.len() && flagged(sightings(entries), k) ==> !(
            #[trigger] entries[k]).state.active,
    ensures
        pass(entries) == Seq::<DeliveryView>::empty(),
        after_pass(entries) == entries,
{
    lemma_silent_prefix(entries, entries.len() as int);
}

/// Stop orders do not repeat: a second pass right after a pass sends
/// nothing and changes nothing.
pub proof fn lemma_second_pass_is_silent(entries: Seq<EntryView>)
    requires
        well_formed(entries),
    ensures
        pass(after_pass(entries)) == Seq::<DeliveryView>::empty(),
        after_pass(after_pass(entries)) == after_pass(entries),
{
    lemma_after_pass(entries);
    let after = after_pass(entries);
    assert forall|k: int| 0 <= k < after.len() && flagged(sightings(after), k) implies !(
    #[trigger] after[k]).state.active by {}
    lemma_pass_over_stopped_is_silent(after);
}

/// Closeness does not depend on which of the two points is named first.
pub proof fn lemma_too_close_symmetric(a: Position, b: Position)
    ensures
        too_close(a, b) == too_close(b, a),
{
    let ax = a.x.units();
    let bx = b.x.units();
    let ay = a.y.units();
    let by = b.y.units();
    assert(square_of_difference(ax, bx) == square_of_difference(bx, ax)) by (nonlinear_arith);
    assert(square_of_difference(ay, by) == square_of_difference(by, ay)) by (nonlinear_arith);
}

/// In a snapshot of two robots, each is crowded exactly where the two are
/// too close to one another.
proof fn lemma_crowded_in_pair(snapshot: Seq<SightingView>)
    requires
        snapshot.len() == 2,
    ensures
        crowded(snapshot, 0) == too_close(snapshot[0].position, snapshot[1].position),
        crowded(snapshot, 1) == too_close(snapshot[0].position, snapshot[1].position),
{
    let a = snapshot[0].position;
    let b = snapshot[1].position;
    let near = too_close(a, b);
    lemma_too_close_symmetric(a, b);
    assert(too_close(b, a) == near);
    if near {
        assert(0 <= 1 < snapshot.len() && 1 != 0 && too_close(a, snapshot[1].position));
        assert(0 <= 0 < snapshot.len() && 0 != 1 && too_close(b, snapshot[0].position));
    }
}

/// Two active robots, both away from the edges of the workspace: a pass
/// stops both where they are less than the safe distance apart, and
/// neither where their distance is the safe distance or more.
pub proof fn lemma_pair_threshold(entries: Seq<EntryView>)
    requires
        well_formed(entries),
        entries.len() == 2,
        entries[0].state.active,
        entries[1].state.active,
        !near_boundary(entries[0].state.position()),
        !near_boundary(entries[1].state.position()),
    ensures
        addressed_to(pass(entries), entries[0].state.id) == if too_close(
            entries[0].state.position(),
            entries[1].state.position(),
        ) {
            stop_pair(entries[0])
        } else {
            Seq::empty()
        },
        addressed_to(pass(entries), entries[1].state.id) == if too_close(
            entries[0].state.position(),
            entries[1].state.position(),
        ) {
            stop_pair(entries[1])
        } else {
            Seq::empty()
        },
{
    let snapshot = sightings(entries);
    lemma_pass_orders(entries, 0);
    lemma_pass_orders(entries, 1);
    lemma_crowded_in_pair(snapshot);
}

} // verus!
