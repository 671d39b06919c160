//! Grid coordinates, and the map that is loaded.

use vstd::prelude::*;

verus! {

/// A cell of the grid. `(0, 0)` is the centre of the map; `layer` selects one
/// of the planes the grid is made of, and no route leads from one plane to
/// another.
#[derive(Clone, Copy, Debug, PartialEq, Eq, Structural, Hash)]
pub struct Position {
    pub x: i32,
    pub y: i32,
    pub layer: i32,
}

impl Position {
    /// The squared Euclidean distance between two cells, as a mathematical
    /// integer. The layers count as a third axis.
    pub open spec fn spec_distance_squared(self, other: Position) -> int {
        (self.x - other.x) * (self.x - other.x) + (self.y - other.y) * (self.y - other.y) + (
        self.layer - other.layer) * (self.layer - other.layer)
    }

    pub fn new(x: i32, y: i32, layer: i32) -> (p: Position)
        ensures
            p == (Position { x, y, layer }),
    {
        Position { x, y, layer }
    }

    /// The centre of the map on the ground layer.
    pub fn zero() -> (p: Position)
        ensures
            p == (Position { x: 0, y: 0, layer: 0 }),
    {
        Position { x: 0, y: 0, layer: 0 }
    }

    /// The squared distance in 32 bits. The cells have to be close enough for
    /// every intermediate value to fit a signed 32-bit integer.
    pub fn distance_squared(&self, other: &Position) -> (d: u32)
        requires
            self.spec_distance_squared(*other) <= i32::MAX,
        ensures
            d == self.spec_distance_squared(*other),
    {
        proof {
            lemma_square_nonnegative(self.x - other.x);
            lemma_square_nonnegative(self.y - other.y);
            lemma_square_nonnegative(self.layer - other.layer);
            lemma_square_bound(self.x - other.x, self.spec_distance_squared(*other));
            lemma_square_bound(self.y - other.y, self.spec_distance_squared(*other));
            lemma_square_bound(self.layer - other.layer, self.spec_distance_squared(*other));
        }
        let dx: i32 = self.x - other.x;
        let dy: i32 = self.y - other.y;
        let dl: i32 = self.layer - other.layer;
        let sum: i32 = dx * dx + dy * dy + dl * dl;
        sum as u32
    }

    /// The squared distance for any two cells: 128 bits hold it whatever the
    /// coordinates are.
    pub fn wide_distance_squared(&self, other: &Position) -> (d: u128)
        ensures
            d == self.spec_distance_squared(*other),
            d <= 3 * (0xffff_ffff * 0xffff_ffff),
    {
        let dx: u128 = span(self.x, other.x);
        let dy: u128 = span(self.y, other.y);
        let dl: u128 = span(self.layer, other.layer);
        proof {
            lemma_square_of_span(self.x - other.x, dx as int);
            lemma_square_of_span(self.y - other.y, dy as int);
            lemma_square_of_span(self.layer - other.layer, dl as int);
        }
        dx * dx + dy * dy + dl * dl
    }
}

impl Default for Position {
    fn default() -> (p: Position)
        ensures
            p == (Position { x: 0, y: 0, layer: 0 }),
    {
        Position { x: 0, y: 0, layer: 0 }
    }
}

/// The distance between two coordinates on one axis.
pub open spec fn spec_span(a: int, b: int) -> int {
    if a >= b {
        a - b
    } else {
        b - a
    }
}

fn span(a: i32, b: i32) -> (d: u128)
    ensures
        d == spec_span(a as int, b as int),
        d <= 0xffff_ffff,
{
    let wide_a: i64 = a as i64;
    let wide_b: i64 = b as i64;
    if wide_a >= wide_b {
        (wide_a - wide_b) as u128
    } else {
        (wide_b - wide_a) as u128
    }
}

proof fn lemma_square_nonnegative(d: int)
    ensures
        d * d >= 0,
{
    assert(d * d >= 0) by (nonlinear_arith);
}

/// A number whose square is part of a sum of squares below 2^31 is itself
/// small.
proof fn lemma_square_bound(d: int, total: int)
    requires
        d * d <= total,
        total <= i32::MAX,
    ensures
        -46341 < d < 46341,
        d * d <= i32::MAX,
{
    assert(d >= 46341 ==> d * d >= 46341 * 46341) by (nonlinear_arith);
    assert(d <= -46341 ==> d * d >= 46341 * 46341) by (nonlinear_arith);
}

proof fn lemma_square_of_span(d: int, s: int)
    requires
        s == d || s == -d,
        0 <= s <= 0xffff_ffff,
    ensures
        s * s == d * d,
        s * s <= 0xffff_ffff * 0xffff_ffff,
{
    assert(s * s == d * d) by (nonlinear_arith)
        requires
            s == d || s == -d,
    ;
    assert(s * s <= 0xffff_ffff * 0xffff_ffff) by (nonlinear_arith)
        requires
            0 <= s <= 0xffff_ffff,
    ;
}

/// Where the loading of a map stands.
#[derive(Clone, Copy, Debug, PartialEq, Eq, Structural)]
pub enum MapAssetState {
    /// The data of the map has not been put into the world.
    NotLoaded,
    /// Another map was asked for, or the same once more: the world has to
    /// be cleared first.
    ChangingMap,
    /// The world holds the map.
    Loaded,
}

impl Default for MapAssetState {
    fn default() -> (state: MapAssetState)
        ensures
            state == MapAssetState::NotLoaded,
    {
        MapAssetState::NotLoaded
    }
}

/// What the loader has to do in a tick.
#[derive(Clone, Copy, Debug, PartialEq, Eq, Structural)]
pub enum LoaderTask {
    /// Nothing.
    Wait,
    /// Clear the world of what came with the old map, and have the data of
    /// the map read again.
    Unload,
    /// Put the data of the map into the world.
    Populate,
}

/// The map in use. `H` is the handle by which its data is found.
pub struct GameMap<H> {
    pub data: H,
    name: String,
    state: MapAssetState,
}

/// What a map consists of.
pub struct GameMapView<H> {
    /// The handle of the data.
    pub data: H,
    /// The name of the map, empty until it is loaded.
    pub name: Seq<char>,
    /// Where the loading stands.
    pub state: MapAssetState,
}

impl<H> View for GameMap<H> {
    type V = GameMapView<H>;

    closed spec fn view(&self) -> GameMapView<H> {
        GameMapView { data: self.data, name: self.name@, state: self.state }
    }
}

impl<H> GameMap<H> {
    /// A map that waits to be loaded from the data behind `handle`.
    pub fn from_handle(handle: H) -> (map: GameMap<H>)
        ensures
            map@ == (GameMapView {
                data: handle,
                name: Seq::<char>::empty(),
                state: MapAssetState::NotLoaded,
            }),
    {
        GameMap { data: handle, name: String::new(), state: MapAssetState::NotLoaded }
    }

    /// Asks for the map behind `handle` in place of the one in use.
    pub fn load(&mut self, handle: H)
        ensures
            final(self)@ == (GameMapView {
                data: handle,
                name: Seq::<char>::empty(),
                state: MapAssetState::ChangingMap,
            }),
    {
        self.data = handle;
        self.name = String::new();
        self.state = MapAssetState::ChangingMap;
    }

    /// Asks for the map in use once more.
    pub fn reload(&mut self)
        ensures
            final(self)@ == (GameMapView {
                data: old(self)@.data,
                name: old(self)@.name,
                state: MapAssetState::ChangingMap,
            }),
    {
        self.state = MapAssetState::ChangingMap;
    }

    /// The name of the map in use.
    pub fn name(&self) -> (name: String)
        ensures
            name@ == self@.name,
    {
        self.name.clone()
    }

    /// Where the loading stands.
    pub fn state(&self) -> (state: MapAssetState)
        ensures
            state == self@.state,
    {
        self.state
    }

    /// Says what the loader has to do in this tick, and moves the loading on
    /// as if it were done. `loaded` is the name that the data of the map
    /// gives, if the data is at hand. A map that is changing is unloaded
    /// first. A map that is not loaded is put into the world once its data
    /// is there, and takes its name from the data.
    pub fn next_task(&mut self, loaded: Option<String>) -> (task: LoaderTask)
        ensures
            final(self)@.data == old(self)@.data,
            old(self)@.state == MapAssetState::Loaded ==> task == LoaderTask::Wait && final(self)@
                == old(self)@,
            old(self)@.state == MapAssetState::ChangingMap ==> task == LoaderTask::Unload
                && final(self)@.name == old(self)@.name && final(self)@.state
                == MapAssetState::NotLoaded,
            old(self)@.state == MapAssetState::NotLoaded && loaded is None ==> task
                == LoaderTask::Wait && final(self)@ == old(self)@,
            old(self)@.state == MapAssetState::NotLoaded && loaded is Some ==> task
                == LoaderTask::Populate && final(self)@.name == loaded.unwrap()@
                && final(self)@.state == MapAssetState::Loaded,
    {
        match self.state {
            MapAssetState::Loaded => LoaderTask::Wait,
            MapAssetState::ChangingMap => {
                self.state = MapAssetState::NotLoaded;
                LoaderTask::Unload
            },
            MapAssetState::NotLoaded => {
                match loaded {
                    Some(name) => {
                        self.name = name;
                        self.state = MapAssetState::Loaded;
                        LoaderTask::Populate
                    },
                    None => LoaderTask::Wait,
                }
            },
        }
    }
}

} // verus!
