//! The workspace safety rules: which robots are too close to an edge of the
//! workspace or to one another.

use crate::position::Position;
use crate::registry::{Sighting, SightingView};
use crate::scalar::unit;
use vstd::prelude::*;

verus! {

/// Width of the workspace, in workspace units.
pub const BOUNDARY_WIDTH: u32 = 600;

/// Height of the workspace, in workspace units.
pub const BOUNDARY_HEIGHT: u32 = 400;

/// A robot closer than this to an edge of the workspace is stopped.
pub const BOUNDARY_MARGIN: u32 = 10;

/// Two robots closer than this to one another are stopped.
pub const SAFE_DISTANCE: u32 = 50;

/// Two robots closer than this to one another are worth a visual hint;
/// one and a half times [`SAFE_DISTANCE`].
pub const ADVISORY_DISTANCE: u32 = 75;

/// How near two robots are, as far as the rules care.
#[derive(Clone, Copy, Debug, PartialEq, Eq, Structural)]
pub enum Proximity {
    /// At least [`ADVISORY_DISTANCE`] apart.
    Clear,
    /// At least [`SAFE_DISTANCE`] apart, but closer than
    /// [`ADVISORY_DISTANCE`]: shown, not acted on.
    Advisory,
    /// Closer than [`SAFE_DISTANCE`]: both robots are stopped.
    Danger,
}

/// The point lies within [`BOUNDARY_MARGIN`] of an edge of the workspace,
/// or outside the workspace: `x < 10`, `x > 590`, `y < 10` or `y > 390`.
pub open spec fn near_boundary(p: Position) -> bool {
    ||| p.x.is_below(BOUNDARY_MARGIN as int)
    ||| p.x.is_above(BOUNDARY_WIDTH - BOUNDARY_MARGIN)
    ||| p.y.is_below(BOUNDARY_MARGIN as int)
    ||| p.y.is_above(BOUNDARY_HEIGHT - BOUNDARY_MARGIN)
}

/// The two points are less than [`SAFE_DISTANCE`] apart.
pub open spec fn too_close(a: Position, b: Position) -> bool {
    a.is_closer_than(b, SAFE_DISTANCE as int)
}

/// How near the two points are.
pub open spec fn proximity_of(a: Position, b: Position) -> Proximity {
    if a.is_closer_than(b, SAFE_DISTANCE as int) {
        Proximity::Danger
    } else if a.is_closer_than(b, ADVISORY_DISTANCE as int) {
        Proximity::Advisory
    } else {
        Proximity::Clear
    }
}

/// Some other robot of the snapshot is too close to robot `i`.
pub open spec fn crowded(snapshot: Seq<SightingView>, i: int) -> bool {
    exists|j: int|
        0 <= j < snapshot.len() && j != i && too_close(
            snapshot[i].position,
            (#[trigger] snapshot[j]).position,
        )
}

/// Robot `i` of the snapshot breaks a rule.
pub open spec fn flagged(snapshot: Seq<SightingView>, i: int) -> bool {
    near_boundary(snapshot[i].position) || crowded(snapshot, i)
}

/// The identifiers of the flagged robots among the first `n` of the
/// snapshot, in the order of the snapshot.
pub open spec fn flagged_ids(snapshot: Seq<SightingView>, n: int) -> Seq<Seq<char>>
    decreases n,
{
    if n <= 0 {
        Seq::empty()
    } else if flagged(snapshot, n - 1) {
        flagged_ids(snapshot, n - 1).push(snapshot[n - 1].id)
    } else {
        flagged_ids(snapshot, n - 1)
    }
}

/// The thresholds at the edges are strict: a finite point is clear of the
/// boundary exactly where `10 <= x <= 590` and `10 <= y <= 390`, so a robot
/// at exactly ten units from an edge is left alone and any robot closer is
/// flagged.
pub proof fn lemma_boundary_is_strict(p: Position)
    requires
        p.finite(),
    ensures
        !near_boundary(p) <==> {
            &&& 10 * unit() <= p.x.units() <= 590 * unit()
            &&& 10 * unit() <= p.y.units() <= 390 * unit()
        },
{
}

/// Whether the point lies within the margin of an edge, or outside the
/// workspace.
pub fn is_near_boundary(p: &Position) -> (r: bool)
    ensures
        r == near_boundary(*p),
{
    p.x.below(BOUNDARY_MARGIN) || p.x.above(BOUNDARY_WIDTH - BOUNDARY_MARGIN) || p.y.below(
        BOUNDARY_MARGIN,
    ) || p.y.above(BOUNDARY_HEIGHT - BOUNDARY_MARGIN)
}

/// Whether the two points are less than [`SAFE_DISTANCE`] apart.
pub fn is_too_close(a: &Position, b: &Position) -> (r: bool)
    ensures
        r == too_close(*a, *b),
{
    a.closer_than(b, SAFE_DISTANCE)
}

/// How near the two points are.
pub fn proximity(a: &Position, b: &Position) -> (r: Proximity)
    ensures
        r == proximity_of(*a, *b),
{
    if a.closer_than(b, SAFE_DISTANCE) {
        Proximity::Danger
    } else if a.closer_than(b, ADVISORY_DISTANCE) {
        Proximity::Advisory
    } else {
        Proximity::Clear
    }
}

/// Whether some other robot of the snapshot is too close to robot `i`.
pub fn is_crowded(snapshot: &Vec<Sighting>, i: usize) -> (r: bool)
    requires
        i < snapshot.len(),
    ensures
        r == crowded(snapshot.deep_view(), i as int),
{
    let here = snapshot[i].position;
    let mut j: usize = 0;
    while j < snapshot.len()
        invariant
            i < snapshot.len(),
            j <= snapshot.len(),
            here == snapshot.deep_view()[i as int].position,
            forall|k: int|
                0 <= k < j && k != i ==> !too_close(
                    here,
                    (#[trigger] snapshot.deep_view()[k]).position,
                ),
        decreases snapshot.len() - j,
    {
        if j != i && is_too_close(&here, &snapshot[j].position) {
            assert(snapshot.deep_view()[j as int].position == snapshot[j as int].position);
            return true;
        }
        j = j + 1;
    }
    false
}

/// One pass of the rules over a snapshot: the identifiers of the robots
/// that must stop, each once, in the order of the snapshot.
pub fn scan(snapshot: &Vec<Sighting>) -> (r: Vec<String>)
    ensures
        r.deep_view() == flagged_ids(snapshot.deep_view(), snapshot.len() as int),
{
    let mut r: Vec<String> = Vec::new();
    let mut i: usize = 0;
    while i < snapshot.len()
        invariant
            i <= snapshot.len(),
            r.deep_view() == flagged_ids(snapshot.deep_view(), i as int),
        decreases snapshot.len() - i,
    {
        let ghost before = r.deep_view();
        if is_near_boundary(&snapshot[i].position) || is_crowded(snapshot, i) {
            r.push(snapshot[i].id.clone());
            assert(r.deep_view() =~= before.push(snapshot.deep_view()[i as int].id));
        }
        i = i + 1;
    }
    r
}

} // verus!
