//! Following a route hop by hop.
//!
//! All quantities are whole numbers. A point of the world is given in
//! thousandths of a cell's width, the progress along a hop in billionths of
//! the hop, a speed in thousandths of a hop per second, and the length of a
//! tick in microseconds, so that speed times tick length is a progress.

use vstd::prelude::*;
use crate::ai::Path;
use crate::map::Position;

verus! {

/// The progress of a hop that is complete.
pub const PROGRESS_FULL: u64 = 1_000_000_000;

/// The squared distance below which an agent counts as standing on a point.
/// In thousandths of a cell this is the millionth of a squared cell width.
pub const ARRIVAL_DISTANCE_SQUARED: u64 = 1;

/// A point of the world.
#[derive(Clone, Copy, Debug, PartialEq, Eq, Structural)]
pub struct WorldPoint {
    pub x: i64,
    pub y: i64,
    pub z: i64,
}

/// The coordinate that lies `progress` billionths of the way from `from` to
/// `to`, rounded towards `from`.
pub open spec fn spec_blend(from: int, to: int, progress: int) -> int {
    if to >= from {
        from + (to - from) * progress / (PROGRESS_FULL as int)
    } else {
        from - (from - to) * progress / (PROGRESS_FULL as int)
    }
}

/// The part of `gap` that `progress` billionths make up, rounded down.
fn share(gap: u128, progress: u64) -> (part: u128)
    requires
        gap <= u64::MAX,
        progress <= PROGRESS_FULL,
    ensures
        part == gap * progress / (PROGRESS_FULL as int),
        part <= gap,
        progress == PROGRESS_FULL ==> part == gap,
        progress == 0 ==> part == 0,
{
    proof {
        lemma_share(gap as int, progress as int);
    }
    gap * (progress as u128) / (PROGRESS_FULL as u128)
}

proof fn lemma_share(gap: int, progress: int)
    requires
        0 <= gap <= u64::MAX,
        0 <= progress <= PROGRESS_FULL,
    ensures
        0 <= gap * progress <= u64::MAX * PROGRESS_FULL,
        0 <= gap * progress / (PROGRESS_FULL as int) <= gap,
        progress == PROGRESS_FULL ==> gap * progress / (PROGRESS_FULL as int) == gap,
        progress == 0 ==> gap * progress / (PROGRESS_FULL as int) == 0,
{
    let full = PROGRESS_FULL as int;
    assert(0 <= gap * progress <= gap * full) by (nonlinear_arith)
        requires
            0 <= gap,
            0 <= progress <= full,
    ;
    assert(gap * full <= u64::MAX * full) by (nonlinear_arith)
        requires
            0 <= gap <= u64::MAX,
            0 <= full,
    ;
    vstd::arithmetic::div_mod::lemma_div_is_ordered(gap * progress, gap * full, full);
    vstd::arithmetic::div_mod::lemma_div_multiples_vanish(gap, full);
    vstd::arithmetic::div_mod::lemma_div_pos_is_pos(gap * progress, full);
    assert(gap * full == full * gap) by (nonlinear_arith);
    if progress == 0 {
        assert(gap * progress == 0) by (nonlinear_arith)
            requires
                progress == 0,
        ;
    }
}

/// Blends two coordinates.
fn blend(from: i64, to: i64, progress: u64) -> (at: i64)
    requires
        progress <= PROGRESS_FULL,
    ensures
        at == spec_blend(from as int, to as int, progress as int),
        progress == PROGRESS_FULL ==> at == to,
        progress == 0 ==> at == from,
{
    if to >= from {
        let gap: u128 = (to as i128 - from as i128) as u128;
        let part: u128 = share(gap, progress);
        (from as i128 + part as i128) as i64
    } else {
        let gap: u128 = (from as i128 - to as i128) as u128;
        let part: u128 = share(gap, progress);
        (from as i128 - part as i128) as i64
    }
}

impl WorldPoint {
    pub fn new(x: i64, y: i64, z: i64) -> (p: WorldPoint)
        ensures
            p == (WorldPoint { x, y, z }),
    {
        WorldPoint { x, y, z }
    }

    /// The squared Euclidean distance of two points.
    pub open spec fn spec_distance_squared(self, other: WorldPoint) -> int {
        (self.x - other.x) * (self.x - other.x) + (self.y - other.y) * (self.y - other.y) + (self.z
            - other.z) * (self.z - other.z)
    }

    /// Whether an agent at `self` counts as standing on `other`.
    pub open spec fn near(self, other: WorldPoint) -> bool {
        self.spec_distance_squared(other) < ARRIVAL_DISTANCE_SQUARED
    }

    /// The point that lies `progress` billionths of the way from `self` to
    /// `target`.
    pub open spec fn spec_lerp(self, target: WorldPoint, progress: int) -> WorldPoint {
        WorldPoint {
            x: spec_blend(self.x as int, target.x as int, progress) as i64,
            y: spec_blend(self.y as int, target.y as int, progress) as i64,
            z: spec_blend(self.z as int, target.z as int, progress) as i64,
        }
    }

    /// Tells whether the two points are closer than the arrival distance. At
    /// the resolution of the coordinates only equal points are.
    pub fn is_near(&self, other: &WorldPoint) -> (b: bool)
        ensures
            b == self.near(*other),
    {
        proof {
            lemma_near(*self, *other);
        }
        self.x == other.x && self.y == other.y && self.z == other.z
    }

    /// Interpolates linearly between `self` and `target`. Progress beyond
    /// the end of the hop counts as the end.
    pub fn lerp(&self, target: &WorldPoint, progress: u64) -> (p: WorldPoint)
        ensures
            progress <= PROGRESS_FULL ==> p == self.spec_lerp(*target, progress as int),
            progress >= PROGRESS_FULL ==> p == *target,
            progress == 0 ==> p == *self,
    {
        let part: u64 = if progress <= PROGRESS_FULL {
            progress
        } else {
            PROGRESS_FULL
        };
        WorldPoint {
            x: blend(self.x, target.x, part),
            y: blend(self.y, target.y, part),
            z: blend(self.z, target.z, part),
        }
    }
}

/// Two points are closer than the arrival distance exactly if they are equal.
pub proof fn lemma_near(a: WorldPoint, b: WorldPoint)
    ensures
        a.near(b) <==> a == b,
{
    let dx = a.x - b.x;
    let dy = a.y - b.y;
    let dz = a.z - b.z;
    assert(dx * dx >= 0 && (dx != 0 ==> dx * dx >= 1)) by (nonlinear_arith);
    assert(dy * dy >= 0 && (dy != 0 ==> dy * dy >= 1)) by (nonlinear_arith);
    assert(dz * dz >= 0 && (dz != 0 ==> dz * dz >= 1)) by (nonlinear_arith);
}

/// What lets an agent follow a route.
pub struct PathFollower {
    /// The speed, in thousandths of a hop per second.
    pub speed: u32,
    progress: u64,
    start_position: Option<WorldPoint>,
}

/// The state of a follower between two ticks.
pub struct FollowerState {
    /// The speed, in thousandths of a hop per second.
    pub speed: u32,
    /// The progress along the current hop, from 0 to `PROGRESS_FULL`.
    pub progress: int,
    /// The point at which the current hop began, once it is known.
    pub origin: Option<WorldPoint>,
}

impl View for PathFollower {
    type V = FollowerState;

    closed spec fn view(&self) -> FollowerState {
        FollowerState {
            speed: self.speed,
            progress: if self.progress <= PROGRESS_FULL {
                self.progress as int
            } else {
                PROGRESS_FULL as int
            },
            origin: self.start_position,
        }
    }
}

impl Default for PathFollower {
    /// A follower at rest that covers one hop per second.
    fn default() -> (f: PathFollower)
        ensures
            f@ == (FollowerState { speed: 1000, progress: 0, origin: None }),
    {
        PathFollower { speed: 1000, progress: 0, start_position: None }
    }
}

impl FollowerState {
    /// The progress after a tick of `delta` microseconds, before a complete
    /// hop is taken off the route. An agent that stands on the target of the
    /// hop has completed it whatever its progress was. Progress beyond the end
    /// of the hop is cut off.
    pub open spec fn gained(self, position: WorldPoint, hop_target: WorldPoint, delta: u32) -> int {
        let base = if position.near(hop_target) {
            PROGRESS_FULL as int
        } else {
            self.progress
        };
        if base + self.speed * delta >= PROGRESS_FULL {
            PROGRESS_FULL as int
        } else {
            base + self.speed * delta
        }
    }

    /// The point at which the current hop began: where the agent stands if
    /// none is known yet.
    pub open spec fn hop_origin(self, position: WorldPoint) -> WorldPoint {
        match self.origin {
            Some(origin) => origin,
            None => position,
        }
    }

    /// Whether the tick completes the hop.
    pub open spec fn arrives(
        self,
        position: WorldPoint,
        hop_target: WorldPoint,
        delta: u32,
    ) -> bool {
        self.gained(position, hop_target, delta) >= PROGRESS_FULL
    }

    /// Where the tick puts the agent.
    pub open spec fn placed(
        self,
        position: WorldPoint,
        hop_target: WorldPoint,
        delta: u32,
    ) -> WorldPoint {
        self.hop_origin(position).spec_lerp(hop_target, self.gained(position, hop_target, delta))
    }

    /// The state after the tick. A completed hop leaves no progress behind,
    /// and the next hop begins at its target.
    pub open spec fn advanced(
        self,
        position: WorldPoint,
        hop_target: WorldPoint,
        delta: u32,
    ) -> FollowerState {
        if self.arrives(position, hop_target, delta) {
            FollowerState { speed: self.speed, progress: 0, origin: Some(hop_target) }
        } else {
            FollowerState {
                speed: self.speed,
                progress: self.gained(position, hop_target, delta),
                origin: Some(self.hop_origin(position)),
            }
        }
    }
}

impl PathFollower {
    /// A follower at rest with the given speed.
    pub fn with_speed(speed: u32) -> (f: PathFollower)
        ensures
            f@ == (FollowerState { speed, progress: 0, origin: None }),
    {
        PathFollower { speed, progress: 0, start_position: None }
    }

    /// The progress along the current hop, in billionths.
    pub fn progress(&self) -> (p: u64)
        ensures
            p == self@.progress,
    {
        if self.progress <= PROGRESS_FULL {
            self.progress
        } else {
            PROGRESS_FULL
        }
    }

    /// The point at which the current hop began, once it is known.
    pub fn start_position(&self) -> (p: Option<WorldPoint>)
        ensures
            p == self@.origin,
    {
        self.start_position
    }

    /// The progress of a follower never leaves the hop.
    pub proof fn lemma_progress_in_range(self)
        ensures
            0 <= self@.progress <= PROGRESS_FULL,
    {
    }

    /// Changes the speed and leaves the hop under way as it is.
    pub fn set_speed(&mut self, speed: u32)
        ensures
            final(self)@ == (FollowerState {
                speed,
                progress: old(self)@.progress,
                origin: old(self)@.origin,
            }),
    {
        self.speed = speed;
    }
}

/// An agent on its route between two ticks.
pub struct Following {
    /// The cells still to visit, the nearest first.
    pub path: Seq<Position>,
    /// The state of the follower.
    pub follower: FollowerState,
    /// Where the agent stands.
    pub position: WorldPoint,
}

/// What a tick brings from outside.
pub struct Tick {
    /// The point of the world that belongs to the first cell of the route.
    pub hop_target: WorldPoint,
    /// The length of the tick in microseconds.
    pub delta: u32,
}

/// One tick. An agent without a cell to visit stays as it is. Any other moves
/// on along its hop, and a hop that the tick completes leaves the route.
pub open spec fn tick(state: Following, event: Tick) -> Following {
    if state.path.len() == 0 {
        state
    } else {
        Following {
            path: if state.follower.arrives(state.position, event.hop_target, event.delta) {
                state.path.skip(1)
            } else {
                state.path
            },
            follower: state.follower.advanced(state.position, event.hop_target, event.delta),
            position: state.follower.placed(state.position, event.hop_target, event.delta),
        }
    }
}

/// A run of ticks, one after the other.
pub open spec fn drive(state: Following, events: Seq<Tick>) -> Following
    decreases events.len(),
{
    if events.len() == 0 {
        state
    } else {
        tick(drive(state, events.drop_last()), events.last())
    }
}

/// A tick in which speed times length makes a whole hop completes the hop
/// whatever the progress was: the agent stands exactly on the target of the
/// hop afterwards, the hop has left the route, and no progress is left over.
pub proof fn lemma_whole_hop(state: Following, event: Tick)
    requires
        state.path.len() > 0,
        state.follower.speed * event.delta >= PROGRESS_FULL,
        0 <= state.follower.progress,
    ensures
        tick(state, event).position == event.hop_target,
        tick(state, event).path == state.path.skip(1),
        tick(state, event).follower == (FollowerState {
            speed: state.follower.speed,
            progress: 0,
            origin: Some(event.hop_target),
        }),
{
    lemma_lerp_ends(state.follower.hop_origin(state.position), event.hop_target);
}

/// Interpolation begins at the one point and ends at the other.
pub proof fn lemma_lerp_ends(from: WorldPoint, to: WorldPoint)
    ensures
        from.spec_lerp(to, 0) == from,
        from.spec_lerp(to, PROGRESS_FULL as int) == to,
{
    lemma_blend_ends(from.x as int, to.x as int);
    lemma_blend_ends(from.y as int, to.y as int);
    lemma_blend_ends(from.z as int, to.z as int);
}

proof fn lemma_blend_ends(from: int, to: int)
    requires
        i64::MIN <= from <= i64::MAX,
        i64::MIN <= to <= i64::MAX,
    ensures
        spec_blend(from, to, 0) == from,
        spec_blend(from, to, PROGRESS_FULL as int) == to,
{
    let gap = if to >= from {
        to - from
    } else {
        from - to
    };
    lemma_share(gap, PROGRESS_FULL as int);
    lemma_share(gap, 0);
}

/// Whether `m` lies between `a` and `b`, the ends included.
pub open spec fn between(a: int, m: int, b: int) -> bool {
    a <= m <= b || b <= m <= a
}

/// Interpolation stays between its two points on every axis.
pub proof fn lemma_lerp_between(from: WorldPoint, to: WorldPoint, progress: int)
    requires
        0 <= progress <= PROGRESS_FULL,
    ensures
        between(from.x as int, from.spec_lerp(to, progress).x as int, to.x as int),
        between(from.y as int, from.spec_lerp(to, progress).y as int, to.y as int),
        between(from.z as int, from.spec_lerp(to, progress).z as int, to.z as int),
{
    lemma_blend_between(from.x as int, to.x as int, progress);
    lemma_blend_between(from.y as int, to.y as int, progress);
    lemma_blend_between(from.z as int, to.z as int, progress);
}

proof fn lemma_blend_between(from: int, to: int, progress: int)
    requires
        i64::MIN <= from <= i64::MAX,
        i64::MIN <= to <= i64::MAX,
        0 <= progress <= PROGRESS_FULL,
    ensures
        between(from, spec_blend(from, to, progress), to),
{
    let gap = if to >= from {
        to - from
    } else {
        from - to
    };
    lemma_share(gap, progress);
}

/// A tick leaves the progress within the hop, and nothing of a completed hop
/// is carried over to the next: progress beyond the end is dropped.
pub proof fn lemma_no_overshoot(
    state: FollowerState,
    position: WorldPoint,
    hop_target: WorldPoint,
    delta: u32,
)
    requires
        0 <= state.progress <= PROGRESS_FULL,
    ensures
        0 <= state.advanced(position, hop_target, delta).progress < PROGRESS_FULL,
        state.arrives(position, hop_target, delta) ==> state.advanced(
            position,
            hop_target,
            delta,
        ).progress == 0,
        0 <= state.gained(position, hop_target, delta) <= PROGRESS_FULL,
{
    assert(state.speed * delta >= 0) by (nonlinear_arith)
        requires
            state.speed >= 0,
            delta >= 0,
    ;
}

/// A route of as many cells as there are ticks, each of which makes a whole
/// hop, is used up by these ticks: after `k` of them the first `k` cells are
/// gone, and after the last the route is empty.
pub proof fn lemma_round_trip(state: Following, events: Seq<Tick>)
    requires
        events.len() <= state.path.len(),
        0 <= state.follower.progress,
        forall|i: int|
            0 <= i < events.len() ==> state.follower.speed * (#[trigger] events[i]).delta
                >= PROGRESS_FULL,
    ensures
        drive(state, events).path == state.path.skip(events.len() as int),
        drive(state, events).follower.speed == state.follower.speed,
        drive(state, events).follower.progress >= 0,
        events.len() == state.path.len() ==> drive(state, events).path.len() == 0,
        events.len() > 0 ==> drive(state, events).position == events.last().hop_target,
    decreases events.len(),
{
    if events.len() > 0 {
        let before = events.drop_last();
        assert forall|i: int| 0 <= i < before.len() implies state.follower.speed * (
        #[trigger] before[i]).delta >= PROGRESS_FULL by {
            assert(before[i] == events[i]);
        }
        lemma_round_trip(state, before);
        let midway = drive(state, before);
        lemma_whole_hop(midway, events.last());
        assert(state.path.skip(before.len() as int).skip(1) == state.path.skip(
            events.len() as int,
        ));
    } else {
        assert(state.path.skip(0) == state.path);
    }
}

/// Moves an agent for one tick of `delta` microseconds along its route.
/// `position` is where the agent stands and `hop_target` is the point of the
/// world that belongs to the first cell of `path`. The result is the agent's
/// new position, or `None` where the route holds no cell: the agent then
/// stays. A tick that reaches the last cell leaves the route empty. The
/// route is used up then, and whoever keeps it for the agent takes it away
/// in the same tick, as `Agent::advance` does.
pub fn follow_path(
    path: &mut Path,
    follower: &mut PathFollower,
    position: WorldPoint,
    hop_target: WorldPoint,
    delta: u32,
) -> (moved: Option<WorldPoint>)
    ensures
        moved is None <==> old(path)@.len() == 0,
        (Following {
            path: final(path)@,
            follower: final(follower)@,
            position: match moved {
                Some(placed) => placed,
                None => position,
            },
        }) == tick(
            Following { path: old(path)@, follower: old(follower)@, position },
            Tick { hop_target, delta },
        ),
        old(path)@.len() > 0 && old(follower)@.speed * delta >= PROGRESS_FULL ==> moved == Some(
            hop_target,
        ) && final(path)@ == old(path)@.skip(1),
{
    if path.0.len() == 0 {
        return None;
    }
    let base: u64 = if position.is_near(&hop_target) || follower.progress > PROGRESS_FULL {
        PROGRESS_FULL
    } else {
        follower.progress
    };
    let origin: WorldPoint = match follower.start_position {
        Some(origin) => origin,
        None => position,
    };
    assert(follower.speed * delta <= 0xffff_ffff * 0xffff_ffff) by (nonlinear_arith)
        requires
            0 <= follower.speed <= 0xffff_ffff,
            0 <= delta <= 0xffff_ffff,
    ;
    let step: u64 = follower.speed as u64 * delta as u64;
    let gained: u64 = if step >= PROGRESS_FULL - base {
        PROGRESS_FULL
    } else {
        base + step
    };
    let placed = origin.lerp(&hop_target, gained);
    if gained >= PROGRESS_FULL {
        path.0.pop_front();
        follower.progress = 0;
        follower.start_position = Some(hop_target);
    } else {
        follower.progress = gained;
        follower.start_position = Some(origin);
    }
    Some(placed)
}

} // verus!
