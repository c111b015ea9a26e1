//! The level builder: turns a finished grid into an ordered list of
//! static axis-aligned boxes — one per remaining wall, one floor slab and
//! one non-solid goal sensor — for a renderer or physics engine.
//!
//! Columns run along the x axis, rows along the z axis, and y is up.
//! Every coordinate is measured in *half-units*: twice the world length,
//! so that box centers, which sit on half-unit boundaries, stay integral.
//!
//! A wall shared by two grid-adjacent cells is emitted once, from its
//! canonical side: every cell emits its south and east walls, and only
//! cells of the first row or first column emit their north or west walls.
//! In a wall-symmetric grid this covers every wall without coincident
//! duplicates.

use vstd::prelude::*;
use crate::grid::{Cell, Direction, Grid, in_bounds, wall_at};

verus! {

/// A point or extent in half-units (twice the world coordinate).
#[derive(Clone, Copy, PartialEq, Eq, Structural, Debug)]
pub struct Vec3i {
    pub x: i64,
    pub y: i64,
    pub z: i64,
}

/// One immovable axis-aligned box of the level: its half-extents and
/// center in half-units, and whether it is solid (a wall or the floor)
/// or a mere sensor volume (the goal).
#[derive(Clone, Copy, PartialEq, Eq, Structural, Debug)]
pub struct StaticGeometry {
    pub half_extents: Vec3i,
    pub center: Vec3i,
    pub solid: bool,
}

/// The floor slab: spans the whole maze footprint, `wall` thick,
/// centered under the maze.
pub open spec fn floor_box(w: int, h: int, room: int, wall: int, wall_h: int) -> StaticGeometry {
    StaticGeometry {
        half_extents: Vec3i { x: (w * (room + wall) + wall) as i64, y: wall as i64, z: (h * (room + wall) + wall) as i64 },
        center: Vec3i { x: (w * (room + wall) - wall) as i64, y: (-wall) as i64, z: (h * (room + wall) - wall) as i64 },
        solid: true,
    }
}

/// The goal sensor: a non-solid volume over the footprint of the far
/// corner cell `(h - 1, w - 1)`.
pub open spec fn goal_box(w: int, h: int, room: int, wall: int, wall_h: int) -> StaticGeometry {
    StaticGeometry {
        half_extents: Vec3i { x: room as i64, y: wall_h as i64, z: room as i64 },
        center: Vec3i {
            x: (2 * (w - 1) * (room + wall) + room) as i64,
            y: wall_h as i64,
            z: (2 * (h - 1) * (room + wall) + room) as i64,
        },
        solid: false,
    }
}

/// The box for the wall of cell `(r, c)` facing `d`: a slab of thickness
/// `wall` spanning the tile's full width plus both wall overlaps,
/// centered on that edge of the cell's footprint.
pub open spec fn wall_box(r: int, c: int, d: Direction, room: int, wall: int, wall_h: int) -> StaticGeometry {
    match d {
        Direction::North => StaticGeometry {
            half_extents: Vec3i { x: (room + 2 * wall) as i64, y: wall_h as i64, z: wall as i64 },
            center: Vec3i {
                x: (2 * c * (room + wall) + room) as i64,
                y: wall_h as i64,
                z: (2 * r * (room + wall) - wall) as i64,
            },
            solid: true,
        },
        Direction::South => StaticGeometry {
            half_extents: Vec3i { x: (room + 2 * wall) as i64, y: wall_h as i64, z: wall as i64 },
            center: Vec3i {
                x: (2 * c * (room + wall) + room) as i64,
                y: wall_h as i64,
                z: (2 * r * (room + wall) + 2 * room + wall) as i64,
            },
            solid: true,
        },
        Direction::West => StaticGeometry {
            half_extents: Vec3i { x: wall as i64, y: wall_h as i64, z: (room + 2 * wall) as i64 },
            center: Vec3i {
                x: (2 * c * (room + wall) - wall) as i64,
                y: wall_h as i64,
                z: (2 * r * (room + wall) + room) as i64,
            },
            solid: true,
        },
        Direction::East => StaticGeometry {
            half_extents: Vec3i { x: wall as i64, y: wall_h as i64, z: (room + 2 * wall) as i64 },
            center: Vec3i {
                x: (2 * c * (room + wall) + 2 * room + wall) as i64,
                y: wall_h as i64,
                z: (2 * r * (room + wall) + room) as i64,
            },
            solid: true,
        },
    }
}

/// Whether cell `(r, c)` emits a box for its wall facing `d`: the wall
/// must be present, and the cell must be the wall's canonical side —
/// south and east walls always are; north and west walls only on the
/// grid's first row or column.
pub open spec fn emits_wall(cells: Seq<Cell>, w: usize, h: usize, r: int, c: int, d: Direction) -> bool {
    wall_at(cells, w, r, c, d) && match d {
        Direction::North => r == 0,
        Direction::South => true,
        Direction::West => c == 0,
        Direction::East => true,
    }
}

/// The (at most one-element) geometry contributed by the wall of
/// `(r, c)` facing `d`.
pub open spec fn wall_seg(
    cells: Seq<Cell>,
    w: usize,
    h: usize,
    r: int,
    c: int,
    d: Direction,
    room: int,
    wall: int,
    wall_h: int,
) -> Seq<StaticGeometry> {
    if emits_wall(cells, w, h, r, c, d) {
        seq![wall_box(r, c, d, room, wall, wall_h)]
    } else {
        Seq::empty()
    }
}

/// The boxes emitted for cell `(r, c)`, in the fixed direction order
/// North, South, West, East.
pub open spec fn cell_geometry(
    cells: Seq<Cell>,
    w: usize,
    h: usize,
    r: int,
    c: int,
    room: int,
    wall: int,
    wall_h: int,
) -> Seq<StaticGeometry> {
    wall_seg(cells, w, h, r, c, Direction::North, room, wall, wall_h) + wall_seg(
        cells,
        w,
        h,
        r,
        c,
        Direction::South,
        room,
        wall,
        wall_h,
    ) + wall_seg(cells, w, h, r, c, Direction::West, room, wall, wall_h) + wall_seg(
        cells,
        w,
        h,
        r,
        c,
        Direction::East,
        room,
        wall,
        wall_h,
    )
}

/// The boxes emitted for the first `c` cells of row `r`.
pub open spec fn row_geometry(
    cells: Seq<Cell>,
    w: usize,
    h: usize,
    r: int,
    c: int,
    room: int,
    wall: int,
    wall_h: int,
) -> Seq<StaticGeometry>
    decreases c,
{
    if c <= 0 {
        Seq::empty()
    } else {
        row_geometry(cells, w, h, r, c - 1, room, wall, wall_h) + cell_geometry(
            cells,
            w,
            h,
            r,
            c - 1,
            room,
            wall,
            wall_h,
        )
    }
}

/// The boxes emitted for the first `r` full rows.
pub open spec fn rows_geometry(
    cells: Seq<Cell>,
    w: usize,
    h: usize,
    r: int,
    room: int,
    wall: int,
    wall_h: int,
) -> Seq<StaticGeometry>
    decreases r,
{
    if r <= 0 {
        Seq::empty()
    } else {
        rows_geometry(cells, w, h, r - 1, room, wall, wall_h) + row_geometry(
            cells,
            w,
            h,
            r - 1,
            w as int,
            room,
            wall,
            wall_h,
        )
    }
}

/// The whole level, in emission order: the floor, the goal sensor, then
/// the wall boxes row-major, each cell North, South, West, East.
pub open spec fn spec_level_geometry(
    cells: Seq<Cell>,
    w: usize,
    h: usize,
    room: int,
    wall: int,
    wall_h: int,
) -> Seq<StaticGeometry> {
    seq![floor_box(w as int, h as int, room, wall, wall_h), goal_box(w as int, h as int, room, wall, wall_h)]
        + rows_geometry(cells, w, h, h as int, room, wall, wall_h)
}

/// How many wall boxes cell `(r, c)` emits.
pub open spec fn cell_wall_count(cells: Seq<Cell>, w: usize, h: usize, r: int, c: int) -> int {
    (if emits_wall(cells, w, h, r, c, Direction::North) {
        1int
    } else {
        0int
    }) + (if emits_wall(cells, w, h, r, c, Direction::South) {
        1int
    } else {
        0int
    }) + (if emits_wall(cells, w, h, r, c, Direction::West) {
        1int
    } else {
        0int
    }) + (if emits_wall(cells, w, h, r, c, Direction::East) {
        1int
    } else {
        0int
    })
}

/// How many wall boxes the first `c` cells of row `r` emit.
pub open spec fn row_wall_count(cells: Seq<Cell>, w: usize, h: usize, r: int, c: int) -> int
    decreases c,
{
    if c <= 0 {
        0
    } else {
        row_wall_count(cells, w, h, r, c - 1) + cell_wall_count(cells, w, h, r, c - 1)
    }
}

/// How many wall boxes the first `r` full rows emit.
pub open spec fn rows_wall_count(cells: Seq<Cell>, w: usize, h: usize, r: int) -> int
    decreases r,
{
    if r <= 0 {
        0
    } else {
        rows_wall_count(cells, w, h, r - 1) + row_wall_count(cells, w, h, r - 1, w as int)
    }
}

/// The canonical wall count: how many wall flags survive the
/// one-box-per-shared-wall rule, over the whole grid.
pub open spec fn canonical_wall_count(cells: Seq<Cell>, w: usize, h: usize) -> int {
    rows_wall_count(cells, w, h, h as int)
}

/// One row's geometry is as long as the walls it emits.
proof fn lemma_row_geometry_len(
    cells: Seq<Cell>,
    w: usize,
    h: usize,
    r: int,
    c: int,
    room: int,
    wall: int,
    wall_h: int,
)
    ensures
        row_geometry(cells, w, h, r, c, room, wall, wall_h).len() == row_wall_count(
            cells,
            w,
            h,
            r,
            c,
        ),
    decreases c,
{
    if c > 0 {
        lemma_row_geometry_len(cells, w, h, r, c - 1, room, wall, wall_h);
    }
}

/// The geometry of the first `r` rows is as long as the walls they emit.
proof fn lemma_rows_geometry_len(
    cells: Seq<Cell>,
    w: usize,
    h: usize,
    r: int,
    room: int,
    wall: int,
    wall_h: int,
)
    ensures
        rows_geometry(cells, w, h, r, room, wall, wall_h).len() == rows_wall_count(cells, w, h, r),
    decreases r,
{
    if r > 0 {
        lemma_rows_geometry_len(cells, w, h, r - 1, room, wall, wall_h);
        lemma_row_geometry_len(cells, w, h, r - 1, w as int, room, wall, wall_h);
    }
}

/// The level holds exactly one box per canonically counted wall, plus
/// the floor and the goal sensor.
pub proof fn lemma_geometry_count(
    cells: Seq<Cell>,
    w: usize,
    h: usize,
    room: int,
    wall: int,
    wall_h: int,
)
    ensures
        spec_level_geometry(cells, w, h, room, wall, wall_h).len() == 2 + canonical_wall_count(
            cells,
            w,
            h,
        ),
{
    lemma_rows_geometry_len(cells, w, h, h as int, room, wall, wall_h);
}

/// Every box a row emits is a solid wall.
proof fn lemma_row_geometry_solid(
    cells: Seq<Cell>,
    w: usize,
    h: usize,
    r: int,
    c: int,
    room: int,
    wall: int,
    wall_h: int,
)
    ensures
        forall|i: int|
            0 <= i < row_geometry(cells, w, h, r, c, room, wall, wall_h).len() ==> (#[trigger] row_geometry(
                cells,
                w,
                h,
                r,
                c,
                room,
                wall,
                wall_h,
            )[i]).solid,
    decreases c,
{
    if c > 0 {
        lemma_row_geometry_solid(cells, w, h, r, c - 1, room, wall, wall_h);
        let pre = row_geometry(cells, w, h, r, c - 1, room, wall, wall_h);
        let cg = cell_geometry(cells, w, h, r, c - 1, room, wall, wall_h);
        let s1 = wall_seg(cells, w, h, r, c - 1, Direction::North, room, wall, wall_h);
        let s2 = wall_seg(cells, w, h, r, c - 1, Direction::South, room, wall, wall_h);
        let s3 = wall_seg(cells, w, h, r, c - 1, Direction::West, room, wall, wall_h);
        let s4 = wall_seg(cells, w, h, r, c - 1, Direction::East, room, wall, wall_h);
        assert forall|i: int|
            0 <= i < row_geometry(cells, w, h, r, c, room, wall, wall_h).len() implies (
        #[trigger] row_geometry(cells, w, h, r, c, room, wall, wall_h)[i]).solid by {
            if i < pre.len() {
                assert(row_geometry(cells, w, h, r, c, room, wall, wall_h)[i] == pre[i]);
            } else {
                let j = i - pre.len();
                assert(row_geometry(cells, w, h, r, c, room, wall, wall_h)[i] == cg[j]);
                if j < s1.len() {
                    assert(cg[j] == s1[0]);
                } else if j < s1.len() + s2.len() {
                    assert(cg[j] == s2[0]);
                } else if j < s1.len() + s2.len() + s3.len() {
                    assert(cg[j] == s3[0]);
                } else {
                    assert(cg[j] == s4[0]);
                }
            }
        }
    }
}

/// Every box the rows emit is a solid wall.
proof fn lemma_rows_geometry_solid(
    cells: Seq<Cell>,
    w: usize,
    h: usize,
    r: int,
    room: int,
    wall: int,
    wall_h: int,
)
    ensures
        forall|i: int|
            0 <= i < rows_geometry(cells, w, h, r, room, wall, wall_h).len() ==> (#[trigger] rows_geometry(
                cells,
                w,
                h,
                r,
                room,
                wall,
                wall_h,
            )[i]).solid,
    decreases r,
{
    if r > 0 {
        lemma_rows_geometry_solid(cells, w, h, r - 1, room, wall, wall_h);
        lemma_row_geometry_solid(cells, w, h, r - 1, w as int, room, wall, wall_h);
        let pre = rows_geometry(cells, w, h, r - 1, room, wall, wall_h);
        let rowg = row_geometry(cells, w, h, r - 1, w as int, room, wall, wall_h);
        assert forall|i: int|
            0 <= i < rows_geometry(cells, w, h, r, room, wall, wall_h).len() implies (
        #[trigger] rows_geometry(cells, w, h, r, room, wall, wall_h)[i]).solid by {
            if i < pre.len() {
                assert(rows_geometry(cells, w, h, r, room, wall, wall_h)[i] == pre[i]);
            } else {
                assert(rows_geometry(cells, w, h, r, room, wall, wall_h)[i] == rowg[i - pre.len()]);
            }
        }
    }
}

/// The level holds exactly one non-solid descriptor: the goal sensor,
/// right after the floor.
pub proof fn lemma_single_sensor(
    cells: Seq<Cell>,
    w: usize,
    h: usize,
    room: int,
    wall: int,
    wall_h: int,
)
    ensures
        forall|i: int|
            0 <= i < spec_level_geometry(cells, w, h, room, wall, wall_h).len() ==> (!(
            #[trigger] spec_level_geometry(cells, w, h, room, wall, wall_h)[i]).solid <==> i == 1),
{
    lemma_rows_geometry_solid(cells, w, h, h as int, room, wall, wall_h);
    assert forall|i: int|
        0 <= i < spec_level_geometry(cells, w, h, room, wall, wall_h).len() implies (!(
    #[trigger] spec_level_geometry(cells, w, h, room, wall, wall_h)[i]).solid <==> i == 1) by {
        if i >= 2 {
            assert(spec_level_geometry(cells, w, h, room, wall, wall_h)[i] == rows_geometry(
                cells,
                w,
                h,
                h as int,
                room,
                wall,
                wall_h,
            )[i - 2]);
        }
    }
}

/// The product of two bounded non-negative values is bounded by the
/// product of the bounds.
proof fn lemma_mul_bound(x: int, y: int, bx: int, by: int)
    requires
        0 <= x <= bx,
        0 <= y <= by,
    ensures
        0 <= x * y <= bx * by,
{
    assert(0 <= x * y <= bx * by) by (nonlinear_arith)
        requires
            0 <= x <= bx,
            0 <= y <= by,
    ;
}

/// Builds the level geometry for a finished grid: the floor, the goal
/// sensor at the far corner, and one box per canonically emitted wall,
/// row-major, each cell's walls in North, South, West, East order.
///
/// `room_size` is a cell footprint's edge, `wall_thickness` a wall
/// slab's thickness and `wall_height` its vertical extent, all in world
/// units; the returned boxes are in half-units (see the module note).
#[verifier::rlimit(100)]
pub fn build_level(
    grid: &Grid,
    room_size: u32,
    wall_thickness: u32,
    wall_height: u32,
) -> (result: Vec<StaticGeometry>)
    requires
        grid.wf(),
        grid.width <= 1000000,
        grid.height <= 1000000,
        room_size <= 1000000,
        wall_thickness <= 1000000,
        wall_height <= 1000000,
    ensures
        result@ == spec_level_geometry(
            grid.cells@,
            grid.width,
            grid.height,
            room_size as int,
            wall_thickness as int,
            wall_height as int,
        ),
        result@.len() == 2 + canonical_wall_count(grid.cells@, grid.width, grid.height),
        forall|i: int| 0 <= i < result@.len() ==> (!(#[trigger] result@[i]).solid <==> i == 1),
{
    let ghost cells = grid.cells@;
    let ghost gw = grid.width;
    let ghost gh = grid.height;
    let room: i64 = room_size as i64;
    let wall: i64 = wall_thickness as i64;
    let wall_h: i64 = wall_height as i64;
    let pitch: i64 = room + wall;
    let wi: i64 = grid.width as i64;
    let hi: i64 = grid.height as i64;
    proof {
        lemma_mul_bound(wi as int, pitch as int, 1000000, 2000000);
        lemma_mul_bound(hi as int, pitch as int, 1000000, 2000000);
    }
    let mut result: Vec<StaticGeometry> = Vec::new();
    result.push(
        StaticGeometry {
            half_extents: Vec3i { x: wi * pitch + wall, y: wall, z: hi * pitch + wall },
            center: Vec3i { x: wi * pitch - wall, y: -wall, z: hi * pitch - wall },
            solid: true,
        },
    );
    proof {
        lemma_mul_bound(2 * (wi - 1) as int, pitch as int, 2000000, 2000000);
        lemma_mul_bound(2 * (hi - 1) as int, pitch as int, 2000000, 2000000);
    }
    result.push(
        StaticGeometry {
            half_extents: Vec3i { x: room, y: wall_h, z: room },
            center: Vec3i {
                x: 2 * (wi - 1) * pitch + room,
                y: wall_h,
                z: 2 * (hi - 1) * pitch + room,
            },
            solid: false,
        },
    );
    proof {
        assert(result@ =~= seq![
            floor_box(gw as int, gh as int, room as int, wall as int, wall_h as int),
            goal_box(gw as int, gh as int, room as int, wall as int, wall_h as int),
        ]);
    }
    let ghost prelude = result@;
    let mut r: usize = 0;
    while r < grid.height
        invariant
            grid.wf(),
            gw == grid.width,
            gh == grid.height,
            cells == grid.cells@,
            grid.width <= 1000000,
            grid.height <= 1000000,
            room_size <= 1000000,
            wall_thickness <= 1000000,
            wall_height <= 1000000,
            room == room_size as i64,
            wall == wall_thickness as i64,
            wall_h == wall_height as i64,
            pitch == room + wall,
            r <= grid.height,
            result@ == prelude + rows_geometry(
                cells,
                gw,
                gh,
                r as int,
                room as int,
                wall as int,
                wall_h as int,
            ),
        decreases grid.height - r,
    {
        proof {
            lemma_mul_bound(2 * r as int, pitch as int, 2000000, 2000000);
        }
        let rz: i64 = 2 * (r as i64) * pitch;
        let ghost row_start = result@;
        let mut c: usize = 0;
        while c < grid.width
            invariant
                grid.wf(),
                gw == grid.width,
                gh == grid.height,
                cells == grid.cells@,
                grid.width <= 1000000,
                grid.height <= 1000000,
                room_size <= 1000000,
                wall_thickness <= 1000000,
                wall_height <= 1000000,
                room == room_size as i64,
                wall == wall_thickness as i64,
                wall_h == wall_height as i64,
                pitch == room + wall,
                r < grid.height,
                rz == 2 * (r as i64) * pitch,
                0 <= rz <= 4000000000000,
                c <= grid.width,
                result@ == row_start + row_geometry(
                    cells,
                    gw,
                    gh,
                    r as int,
                    c as int,
                    room as int,
                    wall as int,
                    wall_h as int,
                ),
            decreases grid.width - c,
        {
            proof {
                lemma_mul_bound(2 * c as int, pitch as int, 2000000, 2000000);
            }
            let cx: i64 = 2 * (c as i64) * pitch;
            let cell = grid.cell(r, c);
            let ghost cell_start = result@;
            if r == 0 && cell.north {
                result.push(
                    StaticGeometry {
                        half_extents: Vec3i { x: room + 2 * wall, y: wall_h, z: wall },
                        center: Vec3i { x: cx + room, y: wall_h, z: rz - wall },
                        solid: true,
                    },
                );
            }
            proof {
                assert(result@ =~= cell_start + wall_seg(
                    cells,
                    gw,
                    gh,
                    r as int,
                    c as int,
                    Direction::North,
                    room as int,
                    wall as int,
                    wall_h as int,
                ));
            }
            let ghost after_n = result@;
            if cell.south {
                result.push(
                    StaticGeometry {
                        half_extents: Vec3i { x: room + 2 * wall, y: wall_h, z: wall },
                        center: Vec3i { x: cx + room, y: wall_h, z: rz + 2 * room + wall },
                        solid: true,
                    },
                );
            }
            proof {
                assert(result@ =~= after_n + wall_seg(
                    cells,
                    gw,
                    gh,
                    r as int,
                    c as int,
                    Direction::South,
                    room as int,
                    wall as int,
                    wall_h as int,
                ));
            }
            let ghost after_s = result@;
            if c == 0 && cell.west {
                result.push(
                    StaticGeometry {
                        half_extents: Vec3i { x: wall, y: wall_h, z: room + 2 * wall },
                        center: Vec3i { x: cx - wall, y: wall_h, z: rz + room },
                        solid: true,
                    },
                );
            }
            proof {
                assert(result@ =~= after_s + wall_seg(
                    cells,
                    gw,
                    gh,
                    r as int,
                    c as int,
                    Direction::West,
                    room as int,
                    wall as int,
                    wall_h as int,
                ));
            }
            let ghost after_w = result@;
            if cell.east {
                result.push(
                    StaticGeometry {
                        half_extents: Vec3i { x: wall, y: wall_h, z: room + 2 * wall },
                        center: Vec3i { x: cx + 2 * room + wall, y: wall_h, z: rz + room },
                        solid: true,
                    },
                );
            }
            proof {
                assert(result@ =~= after_w + wall_seg(
                    cells,
                    gw,
                    gh,
                    r as int,
                    c as int,
                    Direction::East,
                    room as int,
                    wall as int,
                    wall_h as int,
                ));
                assert(result@ =~= row_start + row_geometry(
                    cells,
                    gw,
                    gh,
                    r as int,
                    (c + 1) as int,
                    room as int,
                    wall as int,
                    wall_h as int,
                ));
            }
            c = c + 1;
        }
        proof {
            assert(result@ =~= prelude + rows_geometry(
                cells,
                gw,
                gh,
                (r + 1) as int,
                room as int,
                wall as int,
                wall_h as int,
            ));
        }
        r = r + 1;
    }
    proof {
        assert(result@ =~= spec_level_geometry(
            cells,
            gw,
            gh,
            room as int,
            wall as int,
            wall_h as int,
        ));
        lemma_geometry_count(cells, gw, gh, room as int, wall as int, wall_h as int);
        lemma_single_sensor(cells, gw, gh, room as int, wall as int, wall_h as int);
    }
    result
}

} // verus!
