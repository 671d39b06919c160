//! Grid pathfinding and path following for agents on a layered tile map.
//!
//! An agent asks for a route to a cell of the grid ([`ai`]). The request is
//! resolved to a cell that does not block, and a search of a bounded number
//! of rounds looks for a way around the cells that do ([`search`]). The route
//! found is attached to the agent ([`agent`]), which then follows it hop by
//! hop, a little further each tick ([`movement`]).
//!
//! What a search has to do with the routes there are is shown in [`routes`]
//! and [`open_ground`], on the grounds laid in [`records`]. [`grid`] and
//! [`map`] hold the cells and their neighbourhoods, [`terrain`] the size of
//! the terrain under the grid.

pub mod agent;
pub mod ai;
pub mod grid;
pub mod map;
pub mod movement;
pub mod open_ground;
pub mod records;
pub mod routes;
pub mod search;
pub mod terrain;

pub use crate::agent::Agent;
pub use crate::ai::{Path, PathBuilder};
pub use crate::map::{GameMap, LoaderTask, MapAssetState, Position};
pub use crate::movement::{PathFollower, WorldPoint};
pub use crate::terrain::TerrainSize;
