//! An agent and what it carries from tick to tick.
//!
//! A request waits until the next search pass and is then used up, whether
//! or not it brings a route. A route is attached by a search that finds one
//! and taken away by the motion pass in the tick that uses it up. The
//! follower stays.

use vstd::prelude::*;
use crate::ai::{a_star, plan, Path, PathBuilder};
use crate::map::Position;
use crate::movement::{
    follow_path, lemma_whole_hop, tick, FollowerState, Following, PathFollower, Tick, WorldPoint,
    PROGRESS_FULL,
};

verus! {

/// What an agent may carry. Each part can be there or not.
pub struct Agent {
    /// A request that waits to be served.
    pub request: Option<PathBuilder>,
    /// The route the agent is on.
    pub path: Option<Path>,
    /// What lets the agent follow a route.
    pub follower: Option<PathFollower>,
}

impl Agent {
    /// An agent that carries nothing.
    pub fn new() -> (agent: Agent)
        ensures
            agent.request is None,
            agent.path is None,
            agent.follower is None,
    {
        Agent { request: None, path: None, follower: None }
    }

    /// Takes in a request for a route to `target`. It replaces one that still
    /// waits.
    pub fn request_path(&mut self, target: Position)
        ensures
            final(self).request == Some(PathBuilder { target }),
            final(self).path == old(self).path,
            final(self).follower == old(self).follower,
    {
        self.request = Some(PathBuilder { target });
    }

    /// The search pass for one agent that stands on the cell `start`. A
    /// request that waits is served and used up. If it brings a route, the
    /// route is attached in place of the one the agent had; if not, the agent
    /// keeps what it had.
    pub fn serve_request(&mut self, start: Position, blocks: &Vec<Position>)
        ensures
            final(self).request is None,
            final(self).follower == old(self).follower,
            old(self).request is None ==> final(self).path == old(self).path,
            old(self).request matches Some(request) && start.layer != request.target.layer
                ==> final(self).path == old(self).path,
            old(self).request matches Some(request) ==> match plan(
                start,
                request.target,
                blocks@,
            ) {
                Some(route) => final(self).path matches Some(path) && path@ == route,
                None => final(self).path == old(self).path,
            },
    {
        match self.request.take() {
            Some(request) => {
                match a_star(start, request, blocks) {
                    Some(path) => {
                        self.path = Some(path);
                    },
                    None => {},
                }
            },
            None => {},
        }
    }

    /// What the motion pass looks at, for an agent that stands at `position`.
    pub open spec fn walking(self, position: WorldPoint) -> Walking {
        Walking {
            path: match self.path {
                Some(path) => Some(path@),
                None => None,
            },
            follower: match self.follower {
                Some(follower) => Some(follower@),
                None => None,
            },
            position,
        }
    }

    /// The motion pass for one agent that stands at `position`, for a tick of
    /// `delta` microseconds. `hop_target` is the point of the world that
    /// belongs to the first cell of the agent's route. Only an agent with a
    /// follower and a route that holds a cell is moved: the result is its new
    /// position. A route without a cell is taken from the agent, and so is a
    /// route whose last cell the tick reaches: the agent is moved onto that
    /// cell and has no route afterwards.
    pub fn advance(&mut self, position: WorldPoint, hop_target: WorldPoint, delta: u32) -> (moved:
        Option<WorldPoint>)
        ensures
            final(self).request == old(self).request,
            final(self).walking(
                match moved {
                    Some(placed) => placed,
                    None => position,
                },
            ) == pass(old(self).walking(position), Tick { hop_target, delta }),
            moved is Some <==> old(self).path is Some && old(self).follower is Some
                && old(self).path.unwrap()@.len() > 0,
            old(self).path is None || old(self).follower is None ==> final(self).path
                == old(self).path && final(self).follower == old(self).follower,
            moved is None ==> final(self).follower == old(self).follower,
            old(self).path is Some && old(self).follower is Some ==> (final(self).path is None
                <==> tick(
                Following {
                    path: old(self).path.unwrap()@,
                    follower: old(self).follower.unwrap()@,
                    position,
                },
                Tick { hop_target, delta },
            ).path.len() == 0),
    {
        if self.path.is_none() || self.follower.is_none() {
            return None;
        }
        let mut path = self.path.take().unwrap();
        if path.0.len() == 0 {
            return None;
        }
        let mut follower = self.follower.take().unwrap();
        let moved = follow_path(&mut path, &mut follower, position, hop_target, delta);
        if path.0.len() > 0 {
            self.path = Some(path);
        }
        self.follower = Some(follower);
        moved
    }
}

/// An agent in the motion pass, as far as the pass looks at it.
pub struct Walking {
    /// The cells still to visit, if the agent has a route.
    pub path: Option<Seq<Position>>,
    /// The state of the follower, if the agent has one.
    pub follower: Option<FollowerState>,
    /// Where the agent stands.
    pub position: WorldPoint,
}

/// One motion pass. An agent without a route or without a follower stays as
/// it is. A route without a cell is taken away. Any other agent moves on by
/// one tick, and loses its route if the tick leaves no cell of it.
pub open spec fn pass(state: Walking, event: Tick) -> Walking {
    if state.path is None || state.follower is None {
        state
    } else if state.path.unwrap().len() == 0 {
        Walking { path: None, follower: state.follower, position: state.position }
    } else {
        let after = tick(
            Following {
                path: state.path.unwrap(),
                follower: state.follower.unwrap(),
                position: state.position,
            },
            event,
        );
        Walking {
            path: if after.path.len() == 0 {
                None
            } else {
                Some(after.path)
            },
            follower: Some(after.follower),
            position: after.position,
        }
    }
}

/// A run of motion passes, one after the other.
pub open spec fn passes(state: Walking, events: Seq<Tick>) -> Walking
    decreases events.len(),
{
    if events.len() == 0 {
        state
    } else {
        pass(passes(state, events.drop_last()), events.last())
    }
}

/// An agent with a follower walks a route of `n` cells in `n` ticks that
/// make a whole hop each. Before the last of them it has the rest of the
/// route; with the last it stands on the target of the last hop and has no
/// route any more, while the follower stays.
pub proof fn lemma_route_walked(state: Walking, events: Seq<Tick>)
    requires
        state.path is Some,
        state.follower is Some,
        0 <= state.follower.unwrap().progress,
        1 <= events.len() <= state.path.unwrap().len(),
        forall|i: int|
            0 <= i < events.len() ==> state.follower.unwrap().speed * (#[trigger] events[i]).delta
                >= PROGRESS_FULL,
    ensures
        events.len() < state.path.unwrap().len() ==> passes(state, events).path == Some(
            state.path.unwrap().skip(events.len() as int),
        ),
        events.len() == state.path.unwrap().len() ==> passes(state, events).path is None,
        passes(state, events).follower == Some(
            FollowerState {
                speed: state.follower.unwrap().speed,
                progress: 0,
                origin: Some(events.last().hop_target),
            },
        ),
        passes(state, events).position == events.last().hop_target,
    decreases events.len(),
{
    let route = state.path.unwrap();
    let before = events.drop_last();
    let midway = passes(state, before);
    if before.len() > 0 {
        assert forall|i: int| 0 <= i < before.len() implies state.follower.unwrap().speed * (
        #[trigger] before[i]).delta >= PROGRESS_FULL by {
            assert(before[i] == events[i]);
        }
        lemma_route_walked(state, before);
        assert(route.skip(before.len() as int).skip(1) == route.skip(events.len() as int));
    } else {
        assert(midway == state);
        assert(route.skip(1) == route.skip(events.len() as int));
    }
    let walking = Following {
        path: midway.path.unwrap(),
        follower: midway.follower.unwrap(),
        position: midway.position,
    };
    lemma_whole_hop(walking, events.last());
}

} // verus!
