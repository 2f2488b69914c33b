//! Grid positions and their neighbourhoods.
use vstd::prelude::*;

verus! {

/// The field spans coordinates in `[-FIELD_LIMIT, FIELD_LIMIT]` on both axes.
/// Keeping every occupied cell inside it leaves room for the few steps of
/// look-ahead that the reaction rules take without leaving `i32`.
pub const FIELD_LIMIT: i32 = 1_000_000_000;

/// A cell of the grid.
#[derive(Clone, Copy, PartialEq, Eq, Structural, Hash, Debug)]
pub struct Pos {
    pub x: i32,
    pub y: i32,
}

/// Builds a position from its coordinates.
pub fn pos(x: i32, y: i32) -> (r: Pos)
    ensures
        r.x == x,
        r.y == y,
{
    Pos { x: x, y: y }
}

/// Horizontal offset of neighbour direction `n`: 0 N, 1 E, 2 S, 3 W, 4 NW, 5 SW, 6 SE, 7 NE.
pub open spec fn dir_dx(n: int) -> int {
    if n == 1 || n == 6 || n == 7 {
        1
    } else if n == 3 || n == 4 || n == 5 {
        -1
    } else {
        0
    }
}

/// Vertical offset of neighbour direction `n` (y grows downwards).
pub open spec fn dir_dy(n: int) -> int {
    if n == 0 || n == 4 || n == 7 {
        -1
    } else if n == 2 || n == 5 || n == 6 {
        1
    } else {
        0
    }
}

/// The neighbour of `p` in direction `n`.
pub open spec fn nb(p: Pos, n: int) -> Pos {
    Pos { x: (p.x + dir_dx(n)) as i32, y: (p.y + dir_dy(n)) as i32 }
}

/// `p` can take one step in any direction without leaving `i32`.
pub open spec fn steppable(p: Pos) -> bool {
    i32::MIN < p.x < i32::MAX && i32::MIN < p.y < i32::MAX
}

/// `p` lies inside the field.
pub open spec fn in_field(p: Pos) -> bool {
    -FIELD_LIMIT <= p.x <= FIELD_LIMIT && -FIELD_LIMIT <= p.y <= FIELD_LIMIT
}

/// `p` and `q` share an edge (4-connected adjacency).
pub open spec fn adjacent_spec(p: Pos, q: Pos) -> bool {
    (p.x == q.x && (p.y == q.y + 1 || p.y == q.y - 1)) || (p.y == q.y && (p.x == q.x + 1 || p.x
        == q.x - 1))
}

/// Squared Euclidean distance; it orders positions as the distance itself does.
pub open spec fn dist2(p: Pos, q: Pos) -> int {
    (p.x - q.x) * (p.x - q.x) + (p.y - q.y) * (p.y - q.y)
}

/// The neighbour of `p` in direction `n`: 0..3 are the 4-connected
/// directions N, E, S, W; 4..7 add the diagonals.
pub fn neighbor(p: &Pos, n: i32) -> (r: Pos)
    requires
        0 <= n < 8,
        steppable(*p),
    ensures
        r == nb(*p, n as int),
{
    match n {
        0 => pos(p.x, p.y - 1),
        1 => pos(p.x + 1, p.y),
        2 => pos(p.x, p.y + 1),
        3 => pos(p.x - 1, p.y),
        4 => pos(p.x - 1, p.y - 1),
        5 => pos(p.x - 1, p.y + 1),
        6 => pos(p.x + 1, p.y + 1),
        _ => pos(p.x + 1, p.y - 1),
    }
}

/// Whether `p` lies inside the field.
pub fn within_field(p: &Pos) -> (r: bool)
    ensures
        r == in_field(*p),
{
    -FIELD_LIMIT <= p.x && p.x <= FIELD_LIMIT && -FIELD_LIMIT <= p.y && p.y <= FIELD_LIMIT
}

/// Whether `p` and `q` share an edge.
pub fn adjacent(p: &Pos, q: &Pos) -> (r: bool)
    ensures
        r == adjacent_spec(*p, *q),
{
    let (px, py, qx, qy) = (p.x as i64, p.y as i64, q.x as i64, q.y as i64);
    (px == qx && (py == qy + 1 || py == qy - 1)) || (py == qy && (px == qx + 1 || px == qx - 1))
}

/// Squared Euclidean distance between `p` and `q`.
pub fn distance(p1: &Pos, p2: &Pos) -> (r: u128)
    ensures
        r == dist2(*p1, *p2),
{
    let dx: i128 = p1.x as i128 - p2.x as i128;
    let dy: i128 = p1.y as i128 - p2.y as i128;
    assert(0 <= dx * dx <= 0x4_0000_0000 * 0x4_0000_0000) by (nonlinear_arith)
        requires
            -0x4_0000_0000 <= dx <= 0x4_0000_0000,
    ;
    assert(0 <= dy * dy <= 0x4_0000_0000 * 0x4_0000_0000) by (nonlinear_arith)
        requires
            -0x4_0000_0000 <= dy <= 0x4_0000_0000,
    ;
    (dx * dx + dy * dy) as u128
}

/// The bounding rectangle `[upper_left, lower_right)` grown just enough to
/// contain `p`.
pub fn new_bounds(p: &Pos, upper_left: &Pos, lower_right: &Pos) -> (r: (Pos, Pos))
    requires
        p.x < i32::MAX,
        p.y < i32::MAX,
    ensures
        r.0.x == if p.x < upper_left.x { p.x } else { upper_left.x },
        r.0.y == if p.y < upper_left.y { p.y } else { upper_left.y },
        r.1.x == if p.x >= lower_right.x { p.x + 1 } else { lower_right.x as int },
        r.1.y == if p.y >= lower_right.y { p.y + 1 } else { lower_right.y as int },
{
    let ux = if p.x < upper_left.x {
        p.x
    } else {
        upper_left.x
    };
    let lx = if p.x >= lower_right.x {
        p.x + 1
    } else {
        lower_right.x
    };
    let uy = if p.y < upper_left.y {
        p.y
    } else {
        upper_left.y
    };
    let ly = if p.y >= lower_right.y {
        p.y + 1
    } else {
        lower_right.y
    };
    (pos(ux, uy), pos(lx, ly))
}

} // verus!
