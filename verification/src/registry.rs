//! The registry of live robots: for each identifier the latest reported
//! state, a bounded trail of recent positions, the time of the last report,
//! the session that registered the robot and the robot's outbound handle.
//!
//! A robot belongs to the session that registered it and stays until that
//! session ends; a session may own several robots. Every entry gets an
//! outbound handle of its own when it is made, so no two entries share one.
//!
//! The registry is plain data. A hub that serves several connections keeps
//! it behind one lock and holds the lock for the length of one operation.

use crate::message::{RobotState, RobotStateView};
use crate::position::Position;
use std::collections::VecDeque;
use vstd::prelude::*;

verus! {

/// The number of positions that a trail keeps.
pub const TRAIL_LENGTH: usize = 20;

/// What the registry keeps for one robot.
pub struct RegistryEntry {
    /// The state that the robot reported last.
    pub state: RobotState,
    /// The positions reported last, oldest first.
    pub trail: VecDeque<Position>,
    /// When the robot reported last, on the caller's monotonic clock.
    pub last_seen: u64,
    /// The session that registered the robot.
    pub owner: u64,
    /// The handle under which commands for this robot are queued.
    pub outbound: u64,
}

/// What a [`RegistryEntry`] is in specifications.
pub struct EntryView {
    pub state: RobotStateView,
    pub trail: Seq<Position>,
    pub last_seen: u64,
    pub owner: u64,
    pub outbound: nat,
}

impl View for RegistryEntry {
    type V = EntryView;

    open spec fn view(&self) -> EntryView {
        EntryView {
            state: self.state@,
            trail: self.trail@,
            last_seen: self.last_seen,
            owner: self.owner,
            outbound: self.outbound as nat,
        }
    }
}

/// One robot as the safety rules see it: who and where.
#[derive(Debug, PartialEq, Eq)]
pub struct Sighting {
    pub id: String,
    pub position: Position,
}

/// What a [`Sighting`] is in specifications.
pub struct SightingView {
    pub id: Seq<char>,
    pub position: Position,
}

impl View for Sighting {
    type V = SightingView;

    open spec fn view(&self) -> SightingView {
        SightingView { id: self.id@, position: self.position }
    }
}

impl DeepView for Sighting {
    type V = SightingView;

    open spec fn deep_view(&self) -> SightingView {
        self@
    }
}

/// What a report did in the registry.
#[derive(Clone, Copy, Debug, PartialEq, Eq, Structural)]
pub struct Filing {
    /// The report registered the robot.
    pub created: bool,
    /// The outbound handle of the robot's entry.
    pub handle: u64,
}

/// A robot that left the registry, with the outbound handle that it had.
#[derive(Debug, PartialEq, Eq)]
pub struct Leaver {
    pub id: String,
    pub handle: u64,
}

/// What a [`Leaver`] is in specifications.
pub struct LeaverView {
    pub id: Seq<char>,
    pub handle: nat,
}

impl View for Leaver {
    type V = LeaverView;

    open spec fn view(&self) -> LeaverView {
        LeaverView { id: self.id@, handle: self.handle as nat }
    }
}

impl DeepView for Leaver {
    type V = LeaverView;

    open spec fn deep_view(&self) -> LeaverView {
        self@
    }
}

/// Some entry is filed under `id`.
pub open spec fn registered(entries: Seq<EntryView>, id: Seq<char>) -> bool {
    exists|i: int| 0 <= i < entries.len() && (#[trigger] entries[i]).state.id == id
}

/// The place of the entry filed under `id`, where there is one.
pub open spec fn index_of(entries: Seq<EntryView>, id: Seq<char>) -> int {
    choose|i: int| 0 <= i < entries.len() && (#[trigger] entries[i]).state.id == id
}

/// Some entry has the outbound handle `handle`.
pub open spec fn serves(entries: Seq<EntryView>, handle: nat) -> bool {
    exists|i: int| 0 <= i < entries.len() && (#[trigger] entries[i]).outbound == handle
}

/// The handle is not in use, and every smaller one is.
pub open spec fn least_unused(entries: Seq<EntryView>, handle: nat) -> bool {
    !serves(entries, handle) && forall|g: nat| g < handle ==> #[trigger] serves(entries, g)
}

/// The outbound handle that the next new entry gets: the least that no
/// entry has.
pub open spec fn fresh_handle(entries: Seq<EntryView>) -> nat {
    choose|h: nat| least_unused(entries, h)
}

/// No two entries are filed under the same identifier.
pub open spec fn distinct_ids(entries: Seq<EntryView>) -> bool {
    forall|i: int, j: int|
        0 <= i < j < entries.len() ==> (#[trigger] entries[i]).state.id != (
        #[trigger] entries[j]).state.id
}

/// No two entries share an outbound handle.
pub open spec fn distinct_handles(entries: Seq<EntryView>) -> bool {
    forall|i: int, j: int|
        0 <= i < j < entries.len() ==> (#[trigger] entries[i]).outbound != (
        #[trigger] entries[j]).outbound
}

/// Entries are well formed when identifiers are distinct, outbound handles
/// are distinct, and every trail holds between one and [`TRAIL_LENGTH`]
/// positions.
pub open spec fn well_formed(entries: Seq<EntryView>) -> bool {
    &&& distinct_ids(entries)
    &&& distinct_handles(entries)
    &&& forall|i: int|
        0 <= i < entries.len() ==> 1 <= (#[trigger] entries[i]).trail.len() <= TRAIL_LENGTH
}

/// A trail after one more position: the new position comes last, and the
/// oldest one leaves once more than [`TRAIL_LENGTH`] are held.
pub open spec fn extended(trail: Seq<Position>, position: Position) -> Seq<Position> {
    let longer = trail.push(position);
    if longer.len() > TRAIL_LENGTH {
        longer.drop_first()
    } else {
        longer
    }
}

/// The entries after a report `state` that arrived at time `now` on the
/// session `session`. A known robot is updated in place and keeps its owner
/// and its handle; an unknown one is filed last, as that session's robot,
/// with a fresh handle. No entry leaves.
pub open spec fn filed(
    entries: Seq<EntryView>,
    state: RobotStateView,
    now: u64,
    session: u64,
) -> Seq<EntryView> {
    if registered(entries, state.id) {
        let i = index_of(entries, state.id);
        entries.update(
            i,
            EntryView {
                state,
                trail: extended(entries[i].trail, state.position()),
                last_seen: now,
                owner: entries[i].owner,
                outbound: entries[i].outbound,
            },
        )
    } else {
        entries.push(
            EntryView {
                state,
                trail: seq![state.position()],
                last_seen: now,
                owner: session,
                outbound: fresh_handle(entries),
            },
        )
    }
}

/// The entries without the one filed under `id`.
pub open spec fn removed(entries: Seq<EntryView>, id: Seq<char>) -> Seq<EntryView> {
    if registered(entries, id) {
        entries.remove(index_of(entries, id))
    } else {
        entries
    }
}

/// The test "belongs to the session `session`".
pub open spec fn owned_by(session: u64) -> spec_fn(EntryView) -> bool {
    |entry: EntryView| entry.owner == session
}

/// The test "belongs to another session than `session`".
pub open spec fn kept_from(session: u64) -> spec_fn(EntryView) -> bool {
    |entry: EntryView| entry.owner != session
}

/// The entries without those of the session `session`, in their order.
pub open spec fn released(entries: Seq<EntryView>, session: u64) -> Seq<EntryView> {
    entries.filter(kept_from(session))
}

/// Identifier and handle of an entry that leaves.
pub open spec fn leaver(entry: EntryView) -> LeaverView {
    LeaverView { id: entry.state.id, handle: entry.outbound }
}

/// The robots of the session `session`, in the order of the entries.
pub open spec fn leavers(entries: Seq<EntryView>, session: u64) -> Seq<LeaverView> {
    entries.filter(owned_by(session)).map_values(|entry: EntryView| leaver(entry))
}

/// The entries with the robot filed under `id` marked as stopped. Nothing
/// else changes, and nothing at all where no such robot is filed.
pub open spec fn halted(entries: Seq<EntryView>, id: Seq<char>) -> Seq<EntryView> {
    if registered(entries, id) {
        let i = index_of(entries, id);
        entries.update(
            i,
            EntryView {
                state: RobotStateView { active: false, ..entries[i].state },
                ..entries[i]
            },
        )
    } else {
        entries
    }
}

/// The robot filed under `id` is registered and not stopped.
pub open spec fn is_active(entries: Seq<EntryView>, id: Seq<char>) -> bool {
    registered(entries, id) && entries[index_of(entries, id)].state.active
}

/// What the safety rules see of the entries: identifier and position, in
/// the order of the entries.
pub open spec fn sightings(entries: Seq<EntryView>) -> Seq<SightingView> {
    Seq::new(
        entries.len(),
        |i: int| SightingView { id: entries[i].state.id, position: entries[i].state.position() },
    )
}

/// The store of live robots.
pub struct Registry {
    entries: Vec<RegistryEntry>,
}

impl View for Registry {
    type V = Seq<EntryView>;

    closed spec fn view(&self) -> Seq<EntryView> {
        Seq::new(self.entries@.len(), |i: int| self.entries@[i]@)
    }
}

impl Registry {
    /// The registry's invariant: see [`well_formed`].
    pub open spec fn wf(&self) -> bool {
        well_formed(self@)
    }

    /// A registry without robots.
    pub fn new() -> (r: Registry)
        ensures
            r.wf(),
            r@ == Seq::<EntryView>::empty(),
    {
        let r = Registry { entries: Vec::new() };
        assert(r@ =~= Seq::<EntryView>::empty());
        r
    }

    /// The number of live robots.
    pub fn len(&self) -> (n: usize)
        ensures
            n == self@.len(),
    {
        self.entries.len()
    }

    /// The entries, in the order in which the robots registered.
    pub fn entries(&self) -> (r: &Vec<RegistryEntry>)
        ensures
            r@.len() == self@.len(),
            forall|i: int| 0 <= i < r@.len() ==> (#[trigger] r@[i])@ == self@[i],
    {
        &self.entries
    }

    /// The place of the entry filed under `id`.
    fn find(&self, id: &String) -> (r: Option<usize>)
        ensures
            match r {
                Some(i) => i < self@.len() && self@[i as int].state.id == id@,
                None => !registered(self@, id@),
            },
    {
        let mut i: usize = 0;
        while i < self.entries.len()
            invariant
                i <= self.entries.len(),
                forall|j: int| 0 <= j < i ==> (#[trigger] self@[j]).state.id != id@,
            decreases self.entries.len() - i,
        {
            if self.entries[i].state.id == *id {
                return Some(i);
            }
            i = i + 1;
        }
        None
    }

    /// Whether some entry has the outbound handle `handle`.
    fn in_use(&self, handle: u64) -> (r: bool)
        ensures
            r == serves(self@, handle as nat),
    {
        let mut i: usize = 0;
        while i < self.entries.len()
            invariant
                i <= self.entries.len(),
                forall|j: int| 0 <= j < i ==> (#[trigger] self@[j]).outbound != handle as nat,
            decreases self.entries.len() - i,
        {
            if self.entries[i].outbound == handle {
                assert(self@[i as int].outbound == handle as nat);
                return true;
            }
            i = i + 1;
        }
        false
    }

    /// The least outbound handle that no entry has.
    fn fresh(&self) -> (r: u64)
        ensures
            r as nat == fresh_handle(self@),
            !serves(self@, r as nat),
    {
        let mut handle: u64 = 0;
        loop
            invariant
                forall|g: nat| g < handle ==> #[trigger] serves(self@, g),
                handle <= self@.len(),
            decreases self@.len() - handle,
        {
            if !self.in_use(handle) {
                proof {
                    lemma_fresh_handle(self@, handle as nat);
                }
                return handle;
            }
            proof {
                assert forall|g: nat| g <= handle implies #[trigger] serves(self@, g) by {}
                lemma_room(self@, handle as nat);
                assert(self@.len() == self.entries.len());
            }
            handle = handle + 1;
        }
    }

    /// Whether a robot is filed under `id`.
    pub fn contains(&self, id: &String) -> (r: bool)
        ensures
            r == registered(self@, id@),
    {
        self.find(id).is_some()
    }

    /// The entry filed under `id`.
    pub fn get(&self, id: &String) -> (r: Option<&RegistryEntry>)
        requires
            self.wf(),
        ensures
            match r {
                Some(entry) => registered(self@, id@) && entry@ == self@[index_of(self@, id@)],
                None => !registered(self@, id@),
            },
    {
        match self.find(id) {
            Some(i) => {
                proof {
                    lemma_index_of(self@, i as int);
                }
                Some(&self.entries[i])
            },
            None => None,
        }
    }

    /// Files a report that arrived on the session `session`. A robot that
    /// is not yet known is registered as that session's robot, with a fresh
    /// outbound handle; a known robot has its state replaced, its trail
    /// extended and its time refreshed, and keeps its owner and its handle.
    /// No entry leaves. The result says whether the robot was registered
    /// and gives the handle of its entry.
    pub fn upsert(&mut self, state: RobotState, now: u64, session: u64) -> (r: Filing)
        requires
            old(self).wf(),
        ensures
            final(self).wf(),
            final(self)@ == filed(old(self)@, state@, now, session),
            final(self)@.len() == old(self)@.len() + if r.created {
                1int
            } else {
                0int
            },
            r.created == !registered(old(self)@, state@.id),
            r.handle as nat == final(self)@[index_of(final(self)@, state@.id)].outbound,
    {
        let position = state.position();
        let ghost before = self@;
        let ghost report = state@;
        proof {
            lemma_filed_well_formed(before, report, now, session);
        }
        match self.find(&state.id) {
            Some(i) => {
                proof {
                    lemma_index_of(before, i as int);
                }
                let entry = &mut self.entries[i];
                let handle = entry.outbound;
                entry.state = state;
                entry.last_seen = now;
                entry.trail.push_back(position);
                if entry.trail.len() > TRAIL_LENGTH {
                    entry.trail.pop_front();
                }
                proof {
                    assert(self@[i as int].trail =~= extended(before[i as int].trail, position));
                    assert(self@ =~= filed(before, report, now, session));
                }
                Filing { created: false, handle }
            },
            None => {
                let handle = self.fresh();
                let mut trail: VecDeque<Position> = VecDeque::new();
                trail.push_back(position);
                self.entries.push(
                    RegistryEntry { state, trail, last_seen: now, owner: session, outbound: handle },
                );
                proof {
                    assert(self@ =~= filed(before, report, now, session));
                }
                Filing { created: true, handle }
            },
        }
    }

    /// Removes the robot filed under `id` and says whether there was one.
    /// Removing an unknown robot changes nothing.
    pub fn remove(&mut self, id: &String) -> (found: bool)
        requires
            old(self).wf(),
        ensures
            final(self).wf(),
            final(self)@ == removed(old(self)@, id@),
            found == registered(old(self)@, id@),
            !registered(final(self)@, id@),
    {
        let ghost before = self@;
        proof {
            lemma_removed_well_formed(before, id@);
        }
        match self.find(id) {
            Some(i) => {
                proof {
                    lemma_index_of(before, i as int);
                }
                self.entries.remove(i);
                assert(self@ =~= removed(before, id@));
                true
            },
            None => false,
        }
    }

    /// Removes every robot of the session `session` and returns them, with
    /// the handles that they had. Robots of other sessions stay as they
    /// are.
    pub fn release(&mut self, session: u64) -> (gone: Vec<Leaver>)
        requires
            old(self).wf(),
        ensures
            final(self).wf(),
            final(self)@ == released(old(self)@, session),
            gone.deep_view() == leavers(old(self)@, session),
    {
        let ghost before = self@;
        let mut gone: Vec<Leaver> = Vec::new();
        let mut i: usize = 0;
        proof {
            lemma_released_well_formed(before, session);
            reveal_with_fuel(Seq::filter, 1);
            assert(before.take(0).filter(kept_from(session)) =~= self@.take(0));
            assert(leavers(before.take(0), session) =~= gone.deep_view());
            assert(self@.skip(0) =~= before.skip(0));
        }
        while i < self.entries.len()
            invariant
                i <= self.entries.len(),
                i + gone.len() <= before.len(),
                self@.take(i as int) == before.take(i + gone.len()).filter(kept_from(session)),
                self@.skip(i as int) == before.skip(i + gone.len()),
                gone.deep_view() == leavers(before.take(i + gone.len()), session),
            decreases self.entries.len() - i,
        {
            let ghost current = self@;
            let ghost left = gone.deep_view();
            let ghost seen = i + gone.len();
            proof {
                assert(current.skip(i as int).len() == current.len() - i);
                assert(before.skip(seen as int).len() == before.len() - seen);
                assert(current[i as int] == current.skip(i as int)[0]);
                assert(before[seen] == before.skip(seen)[0]);
                assert(before.take(seen + 1) =~= before.take(seen).push(before[seen]));
                lemma_filter_push(before.take(seen), before[seen], kept_from(session));
                lemma_filter_push(before.take(seen), before[seen], owned_by(session));
            }
            if self.entries[i].owner == session {
                let entry = self.entries.remove(i);
                gone.push(Leaver { id: entry.state.id, handle: entry.outbound });
                proof {
                    assert(self@ =~= current.remove(i as int));
                    assert(self@.take(i as int) =~= current.take(i as int));
                    assert(self@.skip(i as int) =~= before.skip(seen + 1)) by {
                        assert(self@.skip(i as int) =~= current.skip(i as int).skip(1));
                        assert(before.skip(seen + 1) =~= before.skip(seen).skip(1));
                    }
                    assert(gone.deep_view() =~= left.push(leaver(before[seen])));
                    assert(leavers(before.take(seen + 1), session) =~= leavers(
                        before.take(seen),
                        session,
                    ).push(leaver(before[seen])));
                }
            } else {
                i = i + 1;
                proof {
                    assert(self@.take(i as int) =~= current.take(i - 1).push(current[i - 1]));
                    assert(self@.skip(i as int) =~= before.skip(seen + 1)) by {
                        assert(self@.skip(i as int) =~= current.skip(i - 1).skip(1));
                        assert(before.skip(seen + 1) =~= before.skip(seen).skip(1));
                    }
                }
            }
        }
        proof {
            assert(self@.skip(i as int).len() == 0);
            assert(before.take(before.len() as int) =~= before);
            assert(self@.take(i as int) =~= self@);
        }
        gone
    }

    /// Marks the robot filed under `id` as stopped. Returns the robot's
    /// outbound handle where the robot was registered and active, and
    /// nothing where there was no robot to stop.
    pub fn halt(&mut self, id: &String) -> (r: Option<u64>)
        requires
            old(self).wf(),
        ensures
            final(self).wf(),
            final(self)@ == halted(old(self)@, id@),
            match r {
                Some(handle) => is_active(old(self)@, id@) && handle as nat == old(
                    self,
                )@[index_of(old(self)@, id@)].outbound,
                None => !is_active(old(self)@, id@),
            },
    {
        let ghost before = self@;
        proof {
            lemma_halted_well_formed(before, id@);
        }
        match self.find(id) {
            Some(i) => {
                proof {
                    lemma_index_of(before, i as int);
                }
                let entry = &mut self.entries[i];
                let was_active = entry.state.active;
                let handle = entry.outbound;
                entry.state.active = false;
                assert(self@ =~= halted(before, id@));
                if was_active {
                    Some(handle)
                } else {
                    None
                }
            },
            None => None,
        }
    }

    /// A copy of what the safety rules need: identifier and position of
    /// every live robot, in the order of the entries.
    pub fn snapshot(&self) -> (r: Vec<Sighting>)
        ensures
            r.deep_view() == sightings(self@),
    {
        let mut r: Vec<Sighting> = Vec::new();
        let mut i: usize = 0;
        while i < self.entries.len()
            invariant
                i <= self.entries.len(),
                r@.len() == i,
                forall|j: int| 0 <= j < i ==> (#[trigger] r@[j])@ == sightings(self@)[j],
            decreases self.entries.len() - i,
        {
            let entry = &self.entries[i];
            r.push(Sighting { id: entry.state.id.clone(), position: entry.state.position() });
            i = i + 1;
        }
        assert(r.deep_view() =~= sightings(self@));
        r
    }
}

/// With distinct identifiers, the entry filed under an identifier is the
/// only one at which that identifier is found.
pub proof fn lemma_index_of(entries: Seq<EntryView>, i: int)
    requires
        distinct_ids(entries),
        0 <= i < entries.len(),
    ensures
        registered(entries, entries[i].state.id),
        index_of(entries, entries[i].state.id) == i,
{
    let id = entries[i].state.id;
    let k = index_of(entries, id);
    assert(0 <= k < entries.len() && entries[k].state.id == id);
    if k < i {
        assert(entries[k].state.id != entries[i].state.id);
    } else if i < k {
        assert(entries[i].state.id != entries[k].state.id);
    }
}

/// Handles `0` to `h` cannot all be in use unless there are more than `h`
/// entries.
pub proof fn lemma_room(entries: Seq<EntryView>, h: nat)
    requires
        forall|g: nat| g <= h ==> #[trigger] serves(entries, g),
    ensures
        h < entries.len(),
    decreases h,
{
    assert(serves(entries, h));
    let p = choose|i: int| 0 <= i < entries.len() && (#[trigger] entries[i]).outbound == h;
    if h > 0 {
        let rest = entries.remove(p);
        assert forall|g: nat| g <= h - 1 implies #[trigger] serves(rest, g) by {
            assert(serves(entries, g));
            let q = choose|i: int| 0 <= i < entries.len() && (#[trigger] entries[i]).outbound == g;
            let q1 = if q < p { q } else { q - 1 };
            assert(rest[q1] == entries[q]);
        }
        lemma_room(rest, (h - 1) as nat);
    }
}

/// Below every handle that is not in use lies the least such handle.
proof fn lemma_least_unused(entries: Seq<EntryView>, h: nat)
    requires
        !serves(entries, h),
    ensures
        exists|l: nat| l <= h && #[trigger] least_unused(entries, l),
    decreases h,
{
    if forall|g: nat| g < h ==> #[trigger] serves(entries, g) {
        assert(least_unused(entries, h));
    } else {
        let g = choose|g: nat| g < h && !#[trigger] serves(entries, g);
        lemma_least_unused(entries, g);
    }
}

/// A handle that is not in use while every smaller one is, is the fresh
/// handle.
pub proof fn lemma_fresh_handle(entries: Seq<EntryView>, h: nat)
    requires
        least_unused(entries, h),
    ensures
        fresh_handle(entries) == h,
{
    let f = fresh_handle(entries);
    assert(least_unused(entries, f));
    if f < h {
        assert(serves(entries, f));
    } else if h < f {
        assert(serves(entries, h));
    }
}

/// The fresh handle is not in use, and it is at most the number of
/// entries.
pub proof fn lemma_fresh_is_unused(entries: Seq<EntryView>)
    ensures
        !serves(entries, fresh_handle(entries)),
        least_unused(entries, fresh_handle(entries)),
        fresh_handle(entries) <= entries.len(),
{
    let n = entries.len();
    if forall|g: nat| g <= n ==> #[trigger] serves(entries, g) {
        lemma_room(entries, n);
    }
    let u = choose|g: nat| g <= n && !#[trigger] serves(entries, g);
    lemma_least_unused(entries, u);
    let l = choose|l: nat| l <= u && #[trigger] least_unused(entries, l);
    lemma_fresh_handle(entries, l);
}

/// A test applied to a sequence with one more element at its end.
pub proof fn lemma_filter_push(
    entries: Seq<EntryView>,
    entry: EntryView,
    test: spec_fn(EntryView) -> bool,
)
    ensures
        entries.push(entry).filter(test) == if test(entry) {
            entries.filter(test).push(entry)
        } else {
            entries.filter(test)
        },
{
    reveal_with_fuel(Seq::filter, 1);
    assert(entries.push(entry).drop_last() =~= entries);
}

/// Taking one entry out keeps the entries well formed; the identifier and
/// the handle of that entry are free afterwards.
pub proof fn lemma_taken_out(entries: Seq<EntryView>, p: int)
    requires
        well_formed(entries),
        0 <= p < entries.len(),
    ensures
        well_formed(entries.remove(p)),
        !registered(entries.remove(p), entries[p].state.id),
        !serves(entries.remove(p), entries[p].outbound),
{
    let after = entries.remove(p);
    assert forall|a: int| 0 <= a < after.len() implies {
        let a0 = if a < p { a } else { a + 1 };
        &&& (#[trigger] after[a]) == entries[a0]
        &&& after[a].state.id != entries[p].state.id
        &&& after[a].outbound != entries[p].outbound
        &&& 1 <= after[a].trail.len() <= TRAIL_LENGTH
    } by {
        let a0 = if a < p { a } else { a + 1 };
        assert(1 <= entries[a0].trail.len() <= TRAIL_LENGTH);
        if a0 < p {
            assert(entries[a0].state.id != entries[p].state.id);
            assert(entries[a0].outbound != entries[p].outbound);
        } else {
            assert(entries[p].state.id != entries[a0].state.id);
            assert(entries[p].outbound != entries[a0].outbound);
        }
    }
    assert forall|a: int, b: int| 0 <= a < b < after.len() implies (#[trigger] after[a]).state.id
        != (#[trigger] after[b]).state.id && after[a].outbound != after[b].outbound by {
        let a0 = if a < p { a } else { a + 1 };
        let b0 = if b < p { b } else { b + 1 };
        assert(entries[a0].state.id != entries[b0].state.id);
        assert(entries[a0].outbound != entries[b0].outbound);
    }
}

/// Removing a robot keeps the entries well formed, and the robot is not
/// registered afterwards.
pub proof fn lemma_removed_well_formed(entries: Seq<EntryView>, id: Seq<char>)
    requires
        well_formed(entries),
    ensures
        well_formed(removed(entries, id)),
        !registered(removed(entries, id), id),
{
    if registered(entries, id) {
        lemma_taken_out(entries, index_of(entries, id));
    }
}

/// Every entry that is left after a release was there before, belongs to
/// another session, and stands behind the entries that stood before it.
proof fn lemma_released_from(entries: Seq<EntryView>, session: u64, k: int) -> (origin: int)
    requires
        0 <= k < released(entries, session).len(),
    ensures
        k <= origin < entries.len(),
        entries[origin] == released(entries, session)[k],
        entries[origin].owner != session,
        released(entries, session).len() <= entries.len(),
        released(entries.take(origin), session).len() == k,
    decreases entries.len(),
{
    reveal_with_fuel(Seq::filter, 1);
    let front = entries.drop_last();
    let last = entries.len() - 1;
    assert(entries.take(last) =~= front);
    if k < released(front, session).len() {
        let origin = lemma_released_from(front, session, k);
        assert(front.take(origin) =~= entries.take(origin));
        origin
    } else {
        if released(front, session).len() > 0 {
            let before = lemma_released_from(front, session, released(front, session).len() - 1);
        }
        last
    }
}

/// Releasing a session's robots keeps the entries well formed, and the
/// session has no robot afterwards.
pub proof fn lemma_released_well_formed(entries: Seq<EntryView>, session: u64)
    requires
        well_formed(entries),
    ensures
        well_formed(released(entries, session)),
        released(entries, session).len() <= entries.len(),
        forall|k: int|
            0 <= k < released(entries, session).len() ==> (#[trigger] released(
                entries,
                session,
            )[k]).owner != session,
{
    let after = released(entries, session);
    reveal_with_fuel(Seq::filter, 1);
    if after.len() > 0 {
        let o = lemma_released_from(entries, session, 0);
    }
    assert forall|k: int| 0 <= k < after.len() implies (#[trigger] after[k]).owner != session && 1
        <= after[k].trail.len() <= TRAIL_LENGTH by {
        let o = lemma_released_from(entries, session, k);
    }
    assert forall|a: int, b: int| 0 <= a < b < after.len() implies (#[trigger] after[a]).state.id
        != (#[trigger] after[b]).state.id && after[a].outbound != after[b].outbound by {
        let oa = lemma_released_from(entries, session, a);
        let ob = lemma_released_from(entries, session, b);
        if oa == ob {
            assert(released(entries.take(oa), session).len() == a);
        } else if oa < ob {
            assert(entries[oa].state.id != entries[ob].state.id);
        } else {
            assert(entries[ob].state.id != entries[oa].state.id);
        }
    }
}

/// Every entry of another session is still there after a release.
proof fn lemma_released_keeps(entries: Seq<EntryView>, session: u64, i: int) -> (k: int)
    requires
        0 <= i < entries.len(),
        entries[i].owner != session,
    ensures
        0 <= k < released(entries, session).len(),
        released(entries, session)[k] == entries[i],
    decreases entries.len(),
{
    reveal_with_fuel(Seq::filter, 1);
    let front = entries.drop_last();
    if i < entries.len() - 1 {
        lemma_released_keeps(front, session, i)
    } else {
        released(front, session).len() as int
    }
}

/// Releasing a session's robots removes exactly those: a robot is
/// registered afterwards where it was registered to another session
/// before, and then its entry is as it was.
pub proof fn lemma_released_frame(entries: Seq<EntryView>, session: u64, id: Seq<char>)
    requires
        well_formed(entries),
    ensures
        registered(released(entries, session), id) == (registered(entries, id) && entries[index_of(
            entries,
            id,
        )].owner != session),
        registered(released(entries, session), id) ==> released(entries, session)[index_of(
            released(entries, session),
            id,
        )] == entries[index_of(entries, id)],
{
    let after = released(entries, session);
    lemma_released_well_formed(entries, session);
    if registered(after, id) {
        let k = index_of(after, id);
        let o = lemma_released_from(entries, session, k);
        lemma_index_of(entries, o);
    }
    if registered(entries, id) && entries[index_of(entries, id)].owner != session {
        let i = index_of(entries, id);
        let k = lemma_released_keeps(entries, session, i);
        lemma_index_of(after, k);
    }
}

/// A robot of the released session is not registered afterwards, and no
/// entry has the handle that it had.
pub proof fn lemma_released_drops(entries: Seq<EntryView>, session: u64, i: int)
    requires
        well_formed(entries),
        0 <= i < entries.len(),
        entries[i].owner == session,
    ensures
        !registered(released(entries, session), entries[i].state.id),
        !serves(released(entries, session), entries[i].outbound),
{
    let after = released(entries, session);
    if registered(after, entries[i].state.id) {
        let k = index_of(after, entries[i].state.id);
        let o = lemma_released_from(entries, session, k);
        lemma_index_of(entries, o);
        lemma_index_of(entries, i);
    }
    if serves(after, entries[i].outbound) {
        let k = choose|k: int|
            0 <= k < after.len() && (#[trigger] after[k]).outbound == entries[i].outbound;
        let o = lemma_released_from(entries, session, k);
        if o < i {
            assert(entries[o].outbound != entries[i].outbound);
        } else if i < o {
            assert(entries[i].outbound != entries[o].outbound);
        }
    }
}

/// A report leaves the robot filed under another identifier as it was.
pub proof fn lemma_filed_frame(
    entries: Seq<EntryView>,
    state: RobotStateView,
    now: u64,
    session: u64,
    id: Seq<char>,
)
    requires
        well_formed(entries),
        id != state.id,
    ensures
        registered(filed(entries, state, now, session), id) == registered(entries, id),
        registered(entries, id) ==> filed(entries, state, now, session)[index_of(
            filed(entries, state, now, session),
            id,
        )] == entries[index_of(entries, id)],
{
    let after = filed(entries, state, now, session);
    lemma_filed_well_formed(entries, state, now, session);
    if registered(entries, id) {
        let i = index_of(entries, id);
        assert(after[i] == entries[i]);
        lemma_index_of(after, i);
    }
    if registered(after, id) {
        let j = index_of(after, id);
        assert(j < entries.len());
        assert(entries[j].state.id == id);
    }
}

/// Filing a report keeps the entries well formed and removes nothing: a
/// report under an unknown identifier adds exactly one entry, one under a
/// known identifier leaves the number of entries as it is. The robot that
/// reported is registered afterwards; where the report registered it, it
/// belongs to the reporting session and has a handle that no other entry
/// has; where it was known, it keeps its owner and its handle.
pub proof fn lemma_filed_well_formed(
    entries: Seq<EntryView>,
    state: RobotStateView,
    now: u64,
    session: u64,
)
    requires
        well_formed(entries),
    ensures
        well_formed(filed(entries, state, now, session)),
        registered(filed(entries, state, now, session), state.id),
        filed(entries, state, now, session).len() == entries.len() + if registered(
            entries,
            state.id,
        ) {
            0int
        } else {
            1int
        },
        ({
            let after = filed(entries, state, now, session);
            let entry = after[index_of(after, state.id)];
            &&& entry.state == state
            &&& entry.last_seen == now
            &&& entry.owner == if registered(entries, state.id) {
                entries[index_of(entries, state.id)].owner
            } else {
                session
            }
            &&& entry.outbound == if registered(entries, state.id) {
                entries[index_of(entries, state.id)].outbound
            } else {
                fresh_handle(entries)
            }
        }),
        trail_of(filed(entries, state, now, session), state.id) == if registered(
            entries,
            state.id,
        ) {
            extended(trail_of(entries, state.id), state.position())
        } else {
            seq![state.position()]
        },
{
    let after = filed(entries, state, now, session);
    let place = if registered(entries, state.id) {
        index_of(entries, state.id)
    } else {
        entries.len() as int
    };
    lemma_fresh_is_unused(entries);
    assert(after[place].state.id == state.id);
    assert forall|a: int, b: int| 0 <= a < b < after.len() implies (#[trigger] after[a]).state.id
        != (#[trigger] after[b]).state.id && after[a].outbound != after[b].outbound by {
        if b < entries.len() {
            assert(entries[a].state.id != entries[b].state.id);
            assert(entries[a].outbound != entries[b].outbound);
        } else {
            assert(entries[a].state.id != state.id);
            assert(entries[a].outbound != fresh_handle(entries));
        }
    }
    assert forall|a: int| 0 <= a < after.len() implies 1 <= (#[trigger] after[a]).trail.len()
        <= TRAIL_LENGTH by {
        if a < entries.len() {
            assert(1 <= entries[a].trail.len() <= TRAIL_LENGTH);
        }
    }
    lemma_index_of(after, place);
}

/// Marking a robot as stopped keeps the entries well formed; identifiers,
/// positions, owners and handles stay as they are, and so does every other
/// robot's state.
pub proof fn lemma_halted_well_formed(entries: Seq<EntryView>, id: Seq<char>)
    requires
        well_formed(entries),
    ensures
        well_formed(halted(entries, id)),
        halted(entries, id).len() == entries.len(),
        sightings(halted(entries, id)) == sightings(entries),
        !is_active(halted(entries, id), id),
        forall|k: int|
            0 <= k < entries.len() ==> {
                let before = #[trigger] entries[k];
                let after = halted(entries, id)[k];
                &&& after.state.id == before.state.id
                &&& after.owner == before.owner
                &&& after.outbound == before.outbound
                &&& after.state.active == (before.state.active && before.state.id != id)
            },
{
    let after = halted(entries, id);
    assert(sightings(after) =~= sightings(entries));
    assert forall|a: int, b: int| 0 <= a < b < after.len() implies (#[trigger] after[a]).state.id
        != (#[trigger] after[b]).state.id && after[a].outbound != after[b].outbound by {
        assert(entries[a].state.id != entries[b].state.id);
        assert(entries[a].outbound != entries[b].outbound);
    }
    assert forall|a: int| 0 <= a < after.len() implies 1 <= (#[trigger] after[a]).trail.len()
        <= TRAIL_LENGTH by {
        assert(1 <= entries[a].trail.len() <= TRAIL_LENGTH);
    }
    if registered(entries, id) {
        let i = index_of(entries, id);
        assert(after[i].state.id == id);
        lemma_index_of(after, i);
        assert forall|k: int| 0 <= k < entries.len() implies (#[trigger] entries[k]).state.id
            != id || k == i by {
            if k != i {
                lemma_index_of(entries, k);
            }
        }
    } else {
        assert forall|k: int| 0 <= k < entries.len() implies (#[trigger] entries[k]).state.id
            != id by {}
    }
}

/// One report on its way into the registry: the state, the time at which
/// it arrived and the session on which it arrived.
pub struct Report {
    pub state: RobotStateView,
    pub now: u64,
    pub session: u64,
}

/// The entries after the reports `reports` have been filed, first to last.
pub open spec fn after_reports(entries: Seq<EntryView>, reports: Seq<Report>) -> Seq<EntryView>
    decreases reports.len(),
{
    if reports.len() == 0 {
        entries
    } else {
        let report = reports.last();
        filed(
            after_reports(entries, reports.drop_last()),
            report.state,
            report.now,
            report.session,
        )
    }
}

/// The positions that the reports under `id` carry, first to last.
pub open spec fn reported_positions(reports: Seq<Report>, id: Seq<char>) -> Seq<Position>
    decreases reports.len(),
{
    if reports.len() == 0 {
        Seq::empty()
    } else if reports.last().state.id == id {
        reported_positions(reports.drop_last(), id).push(reports.last().state.position())
    } else {
        reported_positions(reports.drop_last(), id)
    }
}

/// The last [`TRAIL_LENGTH`] of the given positions, or all of them where
/// there are fewer.
pub open spec fn latest(positions: Seq<Position>) -> Seq<Position> {
    if positions.len() > TRAIL_LENGTH {
        positions.subrange(positions.len() - TRAIL_LENGTH, positions.len() as int)
    } else {
        positions
    }
}

/// The trail of the robot filed under `id`; empty where none is.
pub open spec fn trail_of(entries: Seq<EntryView>, id: Seq<char>) -> Seq<Position> {
    if registered(entries, id) {
        entries[index_of(entries, id)].trail
    } else {
        Seq::empty()
    }
}

/// Filing reports keeps the entries well formed.
pub proof fn lemma_reports_keep_well_formed(entries: Seq<EntryView>, reports: Seq<Report>)
    requires
        well_formed(entries),
    ensures
        well_formed(after_reports(entries, reports)),
    decreases reports.len(),
{
    if reports.len() > 0 {
        let report = reports.last();
        lemma_reports_keep_well_formed(entries, reports.drop_last());
        lemma_filed_well_formed(
            after_reports(entries, reports.drop_last()),
            report.state,
            report.now,
            report.session,
        );
    }
}

/// Extending the latest of some positions gives the latest of the
/// positions with the new one added.
pub proof fn lemma_extended_latest(positions: Seq<Position>, position: Position)
    ensures
        extended(latest(positions), position) == latest(positions.push(position)),
{
    assert(extended(latest(positions), position) =~= latest(positions.push(position)));
}

/// The trail of a robot holds the positions of its last [`TRAIL_LENGTH`]
/// reports, oldest first, whatever else is reported in between and on
/// whatever sessions: after any reports, the trail of the robot filed under
/// `id` is the latest of its earlier trail followed by the positions
/// reported under `id`, in the order in which they arrived.
pub proof fn lemma_trail_keeps_latest(entries: Seq<EntryView>, reports: Seq<Report>, id: Seq<char>)
    requires
        well_formed(entries),
    ensures
        trail_of(after_reports(entries, reports), id) == latest(
            trail_of(entries, id) + reported_positions(reports, id),
        ),
        trail_of(after_reports(entries, reports), id).len() <= TRAIL_LENGTH,
        registered(after_reports(entries, reports), id) == (registered(entries, id)
            || reported_positions(reports, id).len() > 0),
    decreases reports.len(),
{
    let start = trail_of(entries, id);
    if registered(entries, id) {
        let i = index_of(entries, id);
        assert(1 <= entries[i].trail.len() <= TRAIL_LENGTH);
    }
    if reports.len() == 0 {
        assert(start + reported_positions(reports, id) =~= start);
    } else {
        let earlier = reports.drop_last();
        let report = reports.last();
        let middle = after_reports(entries, earlier);
        lemma_trail_keeps_latest(entries, earlier, id);
        lemma_reports_keep_well_formed(entries, earlier);
        lemma_filed_well_formed(middle, report.state, report.now, report.session);
        let so_far = start + reported_positions(earlier, id);
        if report.state.id == id {
            assert(so_far.push(report.state.position()) =~= start + reported_positions(
                reports,
                id,
            ));
            lemma_extended_latest(so_far, report.state.position());
            if !registered(middle, id) {
                assert(so_far =~= Seq::<Position>::empty());
            }
        } else {
            assert(so_far =~= start + reported_positions(reports, id));
            lemma_filed_frame(middle, report.state, report.now, report.session, id);
        }
    }
}

/// One change to the registry.
pub enum Change {
    /// A report was filed.
    Report(Report),
    /// The robot filed under the identifier was removed.
    Removal(Seq<char>),
    /// The robots of the session were released.
    Release(u64),
    /// The robot filed under the identifier was marked as stopped.
    Stop(Seq<char>),
}

/// The entries after one change.
pub open spec fn changed(entries: Seq<EntryView>, change: Change) -> Seq<EntryView> {
    match change {
        Change::Report(report) => filed(entries, report.state, report.now, report.session),
        Change::Removal(id) => removed(entries, id),
        Change::Release(session) => released(entries, session),
        Change::Stop(id) => halted(entries, id),
    }
}

/// The entries after the changes `changes`, first to last.
pub open spec fn after_changes(entries: Seq<EntryView>, changes: Seq<Change>) -> Seq<EntryView>
    decreases changes.len(),
{
    if changes.len() == 0 {
        entries
    } else {
        changed(after_changes(entries, changes.drop_last()), changes.last())
    }
}

/// The registry never files two entries under the same identifier, no two
/// entries ever share an outbound handle, and no trail ever holds more than
/// [`TRAIL_LENGTH`] positions: whatever reports, removals, releases and
/// stops a registry has seen since it was empty, its entries are well
/// formed.
pub proof fn lemma_history_keeps_ids_distinct(changes: Seq<Change>)
    ensures
        well_formed(after_changes(Seq::empty(), changes)),
        distinct_ids(after_changes(Seq::empty(), changes)),
        distinct_handles(after_changes(Seq::empty(), changes)),
    decreases changes.len(),
{
    if changes.len() > 0 {
        let earlier = after_changes(Seq::empty(), changes.drop_last());
        lemma_history_keeps_ids_distinct(changes.drop_last());
        match changes.last() {
            Change::Report(report) => {
                lemma_filed_well_formed(earlier, report.state, report.now, report.session);
            },
            Change::Removal(id) => {
                lemma_removed_well_formed(earlier, id);
            },
            Change::Release(session) => {
                lemma_released_well_formed(earlier, session);
            },
            Change::Stop(id) => {
                lemma_halted_well_formed(earlier, id);
            },
        }
    }
}

} // verus!
