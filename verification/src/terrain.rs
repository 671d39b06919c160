//! The size of a terrain and the numbering of its vertices.
//!
//! A terrain of `width` by `height` quads has one more vertex than quads in
//! each direction. The vertices are numbered row by row. The cell `(0, 0)` of
//! the grid is the quad in the middle of the terrain.

use vstd::prelude::*;
use crate::map::Position;

verus! {

/// The size of a terrain in quads.
#[derive(Debug, Clone, Copy, PartialEq, Eq, Structural)]
pub struct TerrainSize {
    pub width: usize,
    pub height: usize,
}

impl Default for TerrainSize {
    fn default() -> (size: TerrainSize)
        ensures
            size == (TerrainSize { width: 0, height: 0 }),
    {
        TerrainSize { width: 0, height: 0 }
    }
}

/// The six vertices of the two triangles that make up the quad `(x, y)` of a
/// terrain `width` quads wide: the lower left, upper left and upper right
/// corner, then the lower left, upper right and lower right one.
pub open spec fn quad_triangles(width: int, x: int, y: int) -> Seq<int> {
    let a = y * (width + 1) + x;
    let b = y * (width + 1) + (x + 1);
    let c = (y + 1) * (width + 1) + x;
    let d = (y + 1) * (width + 1) + (x + 1);
    seq![a, c, d, a, d, b]
}

impl TerrainSize {
    pub open spec fn spec_num_quads(self) -> int {
        self.width * self.height
    }

    pub open spec fn spec_num_vertices(self) -> int {
        (self.width + 1) * (self.height + 1)
    }

    /// The number of the vertex in column `vx` of row `vy`.
    pub open spec fn spec_vertex_index(self, vx: int, vy: int) -> int {
        vy * (self.width + 1) + vx
    }

    /// The column and row, among the quads, of the cell `pos` of the grid.
    pub open spec fn spec_quad_of(self, pos: Position) -> (int, int) {
        (self.width / 2 + pos.x, self.height / 2 + pos.y)
    }

    /// Whether the cell `pos` of the grid lies on the terrain.
    pub open spec fn holds(self, pos: Position) -> bool {
        &&& 0 <= self.spec_quad_of(pos).0 < self.width
        &&& 0 <= self.spec_quad_of(pos).1 < self.height
    }

    pub fn new(width: usize, height: usize) -> (size: TerrainSize)
        ensures
            size == (TerrainSize { width, height }),
    {
        TerrainSize { width, height }
    }

    pub fn square(size: usize) -> (square: TerrainSize)
        ensures
            square == (TerrainSize { width: size, height: size }),
    {
        TerrainSize::new(size, size)
    }

    /// The number of quads of the terrain.
    pub fn num_quads(&self) -> (n: usize)
        requires
            self.spec_num_quads() <= usize::MAX,
        ensures
            n == self.spec_num_quads(),
    {
        self.width * self.height
    }

    /// The number of vertices of the terrain.
    pub fn num_vertices(&self) -> (n: usize)
        requires
            self.spec_num_vertices() <= usize::MAX,
        ensures
            n == self.spec_num_vertices(),
    {
        proof {
            lemma_sides(self.width as int, self.height as int);
        }
        (self.width + 1) * (self.height + 1)
    }

    /// The number of the vertex in column `vx` of row `vy`, if the terrain
    /// has a vertex of that number.
    pub fn vertex_index(&self, vx: usize, vy: usize) -> (index: Option<usize>)
        ensures
            index is Some <==> self.spec_vertex_index(vx as int, vy as int)
                < self.spec_num_vertices() <= usize::MAX,
            index matches Some(i) ==> i == self.spec_vertex_index(vx as int, vy as int),
    {
        if self.width == usize::MAX || self.height == usize::MAX {
            proof {
                lemma_sides(self.width as int, self.height as int);
            }
            return None;
        }
        proof {
            lemma_products_fit(self.width as int + 1, self.height as int + 1);
            lemma_products_fit(self.width as int + 1, vy as int);
        }
        let row: u128 = self.width as u128 + 1;
        let count: u128 = row * (self.height as u128 + 1);
        let index: u128 = vy as u128 * row + vx as u128;
        if index < count && count <= usize::MAX as u128 {
            Some(index as usize)
        } else {
            None
        }
    }

    /// The column and row of the quad that is the cell `pos` of the grid, if
    /// the cell lies on the terrain. The vertex of the same column and row is
    /// the lower left corner of the quad.
    pub fn quad_of(&self, pos: &Position) -> (quad: Option<(usize, usize)>)
        ensures
            quad is Some <==> self.holds(*pos),
            quad matches Some(q) ==> (q.0 as int, q.1 as int) == self.spec_quad_of(*pos),
    {
        let column: i128 = (self.width / 2) as i128 + pos.x as i128;
        let row: i128 = (self.height / 2) as i128 + pos.y as i128;
        if 0 <= column && column < self.width as i128 && 0 <= row && row < self.height as i128 {
            Some((column as usize, row as usize))
        } else {
            None
        }
    }

    /// The vertices of the triangles of the terrain's mesh: six for each
    /// quad, quad by quad and row by row.
    pub fn mesh_indices(&self) -> (indices: Vec<u32>)
        requires
            self.spec_num_vertices() <= u32::MAX,
        ensures
            indices@.len() == 6 * self.spec_num_quads(),
            forall|x: int, y: int|
                0 <= x < self.width && 0 <= y < self.height ==> #[trigger] quad_triangles(
                    self.width as int,
                    x,
                    y,
                ) == indices@.subrange(
                    6 * (y * self.width + x),
                    6 * (y * self.width + x) + 6,
                ).map_values(|i: u32| i as int),
    {
        let mut indices: Vec<u32> = Vec::new();
        let width: usize = self.width;
        let height: usize = self.height;
        proof {
            lemma_sides(width as int, height as int);
        }
        let row: usize = width + 1;
        let mut y: usize = 0;
        while y < height
            invariant
                y <= height,
                width == self.width,
                height == self.height,
                row == width + 1,
                self.spec_num_vertices() <= u32::MAX,
                indices@.len() == 6 * (y * width),
                forall|i: int, j: int|
                    0 <= i < width && 0 <= j < y ==> #[trigger] quad_triangles(width as int, i, j)
                        == indices@.subrange(
                        6 * (j * width + i),
                        6 * (j * width + i) + 6,
                    ).map_values(|v: u32| v as int),
            decreases height - y,
        {
            let mut x: usize = 0;
            while x < width
                invariant
                    x <= width,
                    y < height,
                    width == self.width,
                    height == self.height,
                    row == width + 1,
                    self.spec_num_vertices() <= u32::MAX,
                    indices@.len() == 6 * (y * width + x),
                    forall|i: int, j: int|
                        0 <= i < width && 0 <= j < y ==> #[trigger] quad_triangles(
                            width as int,
                            i,
                            j,
                        ) == indices@.subrange(
                            6 * (j * width + i),
                            6 * (j * width + i) + 6,
                        ).map_values(|v: u32| v as int),
                    forall|i: int|
                        0 <= i < x ==> #[trigger] quad_triangles(width as int, i, y as int)
                            == indices@.subrange(
                            6 * (y * width + i),
                            6 * (y * width + i) + 6,
                        ).map_values(|v: u32| v as int),
                decreases width - x,
            {
                proof {
                    lemma_corner(width as int, height as int, x as int, y as int);
                }
                let a: u32 = (y * row + x) as u32;
                let b: u32 = (y * row + (x + 1)) as u32;
                let c: u32 = ((y + 1) * row + x) as u32;
                let d: u32 = ((y + 1) * row + (x + 1)) as u32;
                let ghost before = indices@;
                indices.push(a);
                indices.push(c);
                indices.push(d);
                indices.push(a);
                indices.push(d);
                indices.push(b);
                proof {
                    let at = 6 * (y * width + x);
                    assert(before.len() == at);
                    assert(indices@.subrange(at, at + 6).map_values(|v: u32| v as int)
                        == quad_triangles(width as int, x as int, y as int));
                    assert forall|i: int, j: int| 0 <= i < width && 0 <= j < y implies
                        #[trigger] quad_triangles(width as int, i, j) == indices@.subrange(
                        6 * (j * width + i),
                        6 * (j * width + i) + 6,
                    ).map_values(|v: u32| v as int) by {
                        lemma_slot(width as int, i, j, x as int, y as int);
                        assert(indices@.subrange(6 * (j * width + i), 6 * (j * width + i) + 6)
                            == before.subrange(6 * (j * width + i), 6 * (j * width + i) + 6));
                    }
                    assert forall|i: int| 0 <= i < x implies #[trigger] quad_triangles(
                        width as int,
                        i,
                        y as int,
                    ) == indices@.subrange(
                        6 * (y * width + i),
                        6 * (y * width + i) + 6,
                    ).map_values(|v: u32| v as int) by {
                        lemma_slot(width as int, i, y as int, x as int, y as int);
                        assert(indices@.subrange(6 * (y * width + i), 6 * (y * width + i) + 6)
                            == before.subrange(6 * (y * width + i), 6 * (y * width + i) + 6));
                    }
                    assert(6 * (y * width + (x + 1)) == at + 6) by (nonlinear_arith)
                        requires
                            at == 6 * (y * width + x),
                    ;
                }
                x += 1;
            }
            proof {
                assert((y + 1) * width == y * width + width) by (nonlinear_arith);
            }
            y += 1;
        }
        proof {
            assert(6 * (height * width) == 6 * (width * height)) by (nonlinear_arith);
        }
        indices
    }
}

/// Where the number of vertices fits a machine integer, so does each side.
proof fn lemma_sides(width: int, height: int)
    requires
        0 <= width,
        0 <= height,
    ensures
        width + 1 <= (width + 1) * (height + 1),
        height + 1 <= (width + 1) * (height + 1),
        width * height <= (width + 1) * (height + 1),
{
    assert(width + 1 <= (width + 1) * (height + 1)) by (nonlinear_arith)
        requires
            0 <= width,
            0 <= height,
    ;
    assert(height + 1 <= (width + 1) * (height + 1)) by (nonlinear_arith)
        requires
            0 <= width,
            0 <= height,
    ;
    assert(width * height <= (width + 1) * (height + 1)) by (nonlinear_arith)
        requires
            0 <= width,
            0 <= height,
    ;
}

/// The product of two machine integers fits 128 bits with room to spare.
proof fn lemma_products_fit(a: int, b: int)
    requires
        0 <= a <= usize::MAX,
        0 <= b <= usize::MAX,
    ensures
        0 <= a * b <= 0xffff_ffff_ffff_ffff * 0xffff_ffff_ffff_ffff,
{
    assert(0 <= a * b <= 0xffff_ffff_ffff_ffff * 0xffff_ffff_ffff_ffff) by (nonlinear_arith)
        requires
            0 <= a <= 0xffff_ffff_ffff_ffff,
            0 <= b <= 0xffff_ffff_ffff_ffff,
    ;
}

/// The corners of a quad of the terrain are vertices of the terrain.
proof fn lemma_corner(width: int, height: int, x: int, y: int)
    requires
        0 <= x < width,
        0 <= y < height,
    ensures
        0 <= y * (width + 1) + x,
        (y + 1) * (width + 1) + (x + 1) < (width + 1) * (height + 1),
        y * (width + 1) <= (y + 1) * (width + 1) <= (width + 1) * (height + 1),
        0 <= y * (width + 1),
        0 <= y * width,
{
    assert(0 <= y * (width + 1) && 0 <= y * width) by (nonlinear_arith)
        requires
            0 <= y,
            0 <= width,
    ;
    assert((y + 1) * (width + 1) == y * (width + 1) + width + 1) by (nonlinear_arith);
    assert((y + 1) * (width + 1) + (width + 1) <= (width + 1) * (height + 1)) by (nonlinear_arith)
        requires
            0 <= y < height,
            0 <= width,
    ;
}

/// The six places of an earlier quad lie before those of a later one.
proof fn lemma_slot(width: int, i: int, j: int, x: int, y: int)
    requires
        0 <= i < width,
        0 <= j <= y,
        0 <= x <= width,
        j < y || i < x,
    ensures
        0 <= 6 * (j * width + i),
        6 * (j * width + i) + 6 <= 6 * (y * width + x),
{
    assert(0 <= j * width) by (nonlinear_arith)
        requires
            0 <= j,
            0 <= width,
    ;
    if j < y {
        assert(j * width + width <= y * width) by (nonlinear_arith)
            requires
                j < y,
                0 <= width,
        ;
    }
}

} // verus!
