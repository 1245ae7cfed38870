//! Field-of-view computation.
//!
//! - [`RecursiveShadowcasting`] works on square grids (recursive symmetric
//!   shadowcasting after Albert Ford's "Symmetric Shadowcasting", with integer
//!   fractions for slopes and no floating point);
//! - [`BfsFovAlgorithm`] works on any graph topology (breadth-first flood fill).
//!
//! Cells whose metadata holds `"transparent": false` block sight; cells
//! without metadata are transparent. For shadowcasting, positions that are not
//! cells of the map count as walls.
use vstd::prelude::*;

use crate::collections::KeySet;
use crate::map::cell_key::{CellKey, CellKeyV};
use crate::map::topology::Topology;
use crate::map::WorldMap;

verus! {

/// A pluggable field-of-view algorithm.
pub trait FovAlgorithm {
    /// Compute visible cells from an origin with given range.
    fn compute_fov(&self, origin: &CellKey, range: u32, topology: &Topology) -> Vec<CellKey>;

    /// Human-readable name for debugging and API lookups.
    fn name(&self) -> &'static str;
}

/// Whether a cell lets sight through (cells with no metadata do).
fn is_transparent(topology: &Topology, cell: &CellKey) -> (r: bool)
    ensures
        r == topology.transparent(cell@),
{
    proof {
        reveal_strlit("transparent");
    }
    match topology.get_cell_metadata(cell) {
        Some(m) => match m.get_bool("transparent") {
            Some(b) => b,
            None => true,
        },
        None => true,
    }
}

// ---------------------------------------------------------------------------
// Integer slopes and row geometry
// ---------------------------------------------------------------------------

/// Integer fraction `num / den` for slope comparison (`den > 0` once normalized).
#[derive(Clone, Copy)]
pub struct Slope {
    pub num: i128,
    pub den: i128,
}

/// Largest magnitude handled by the row arithmetic.
pub open spec fn bound() -> int {
    0x1_0000_0000
}

impl Slope {
    /// Normalize the sign onto the numerator.
    pub fn new(num: i128, den: i128) -> (r: Slope)
        requires
            den != 0,
            -bound() * 4 <= num <= bound() * 4,
            -bound() * 4 <= den <= bound() * 4,
        ensures
            r.den > 0,
            den > 0 ==> r.num == num && r.den == den,
            den < 0 ==> r.num == -num && r.den == -den,
    {
        if den < 0 {
            Slope { num: -num, den: -den }
        } else {
            Slope { num, den }
        }
    }

    pub fn one() -> (r: Slope)
        ensures
            r.num == 1 && r.den == 1,
    {
        Slope { num: 1, den: 1 }
    }

    pub fn neg_one() -> (r: Slope)
        ensures
            r.num == -1 && r.den == 1,
    {
        Slope { num: -1, den: 1 }
    }
}

/// `floor(num/den + 1/2)` for `den > 0` (round half toward +infinity).
pub open spec fn spec_round_ties_up(num: int, den: int) -> int {
    (2 * num + den) / (2 * den)
}

/// `ceil(num/den - 1/2)` for `den > 0` (round half toward -infinity).
pub open spec fn spec_round_ties_down(num: int, den: int) -> int {
    -((den - 2 * num) / (2 * den))
}

/// Round `n + 0.5` toward positive infinity (floor(n + 0.5) for all n).
pub fn round_ties_up(num: i128, den: i128) -> (r: i128)
    requires
        0 < den <= bound() * 4,
        -bound() * bound() * 8 <= num <= bound() * bound() * 8,
    ensures
        r == spec_round_ties_up(num as int, den as int),
{
    let n = 2 * num + den;
    let d = 2 * den;
    if n >= 0 {
        n / d
    } else {
        proof {
            lemma_floor_neg(n as int, d as int);
        }
        (n - d + 1) / d
    }
}

/// Round `n - 0.5` toward negative infinity (ceil(n - 0.5) for all n).
pub fn round_ties_down(num: i128, den: i128) -> (r: i128)
    requires
        0 < den <= bound() * 4,
        -bound() * bound() * 8 <= num <= bound() * bound() * 8,
    ensures
        r == spec_round_ties_down(num as int, den as int),
{
    let n = 2 * num - den;
    let d = 2 * den;
    if n >= 0 {
        proof {
            lemma_ceil_pos(n as int, d as int);
        }
        (n + d - 1) / d
    } else {
        n / d
    }
}

/// For `n < 0 < d`, truncating `(n - d + 1) / d` is the floor of `n / d`.
proof fn lemma_floor_neg(n: int, d: int)
    requires
        n < 0,
        d > 0,
    ensures
        -((-(n - d + 1)) / d) == n / d,
{
    let q = n / d;
    let r = n % d;
    assert(n == q * d + r && 0 <= r < d) by (nonlinear_arith)
        requires
            d > 0,
            q == n / d,
            r == n % d,
    ;
    let m = -(n - d + 1);
    assert(m == -q * d + (d - 1 - r)) by (nonlinear_arith)
        requires
            n == q * d + r,
            m == -(n - d + 1),
    ;
    assert(m / d == -q) by (nonlinear_arith)
        requires
            m == -q * d + (d - 1 - r),
            0 <= d - 1 - r < d,
            d > 0,
    ;
}

/// For `n >= 0 < d`, `(n + d - 1) / d` is `-floor(-n / d)` (the ceiling).
proof fn lemma_ceil_pos(n: int, d: int)
    requires
        n >= 0,
        d > 0,
    ensures
        (n + d - 1) / d == -((-n) / d),
{
    let q = n / d;
    let r = n % d;
    assert(n == q * d + r && 0 <= r < d) by (nonlinear_arith)
        requires
            d > 0,
            q == n / d,
            r == n % d,
    ;
    if r == 0 {
        assert((n + d - 1) / d == q) by (nonlinear_arith)
            requires
                n == q * d,
                d > 0,
        ;
        assert((-n) / d == -q) by (nonlinear_arith)
            requires
                n == q * d,
                d > 0,
        ;
    } else {
        assert(n + d - 1 == (q + 1) * d + (r - 1)) by (nonlinear_arith)
            requires
                n == q * d + r,
        ;
        assert(-n == (-q - 1) * d + (d - r)) by (nonlinear_arith)
            requires
                n == q * d + r,
        ;
        assert((n + d - 1) / d == q + 1) by (nonlinear_arith)
            requires
                n + d - 1 == (q + 1) * d + (r - 1),
                0 <= r - 1 < d,
                d > 0,
        ;
        assert((-n) / d == -q - 1) by (nonlinear_arith)
            requires
                -n == (-q - 1) * d + (d - r),
                0 < d - r < d,
                d > 0,
        ;
    }
}

/// The slope of a tile's left edge: `(2*col - 1) / (2*depth)`.
pub fn tile_slope(depth: i128, col: i128) -> (r: Slope)
    requires
        1 <= depth <= bound(),
        -bound() <= col <= bound(),
    ensures
        r.num == 2 * col - 1,
        r.den == 2 * depth,
{
    Slope::new(2 * col - 1, 2 * depth)
}

/// North quadrant.
pub const NORTH: u8 = 0;
/// South quadrant.
pub const SOUTH: u8 = 1;
/// East quadrant.
pub const EAST: u8 = 2;
/// West quadrant.
pub const WEST: u8 = 3;

/// Map coordinates of `(depth, col)` in a quadrant.
pub open spec fn spec_transform(quadrant: u8, ox: int, oy: int, depth: int, col: int) -> (int, int) {
    if quadrant == NORTH {
        (ox + col, oy - depth)
    } else if quadrant == SOUTH {
        (ox + col, oy + depth)
    } else if quadrant == EAST {
        (ox + depth, oy + col)
    } else {
        (ox - depth, oy + col)
    }
}

/// Transform (depth, col) from quadrant-local to map (x, y) coordinates.
pub fn quadrant_transform(quadrant: u8, ox: i128, oy: i128, depth: i128, col: i128) -> (r: (i128, i128))
    requires
        quadrant < 4,
        -bound() * 4 <= ox <= bound() * 4,
        -bound() * 4 <= oy <= bound() * 4,
        -bound() * 4 <= depth <= bound() * 4,
        -bound() * 4 <= col <= bound() * 4,
    ensures
        (r.0 as int, r.1 as int) == spec_transform(quadrant, ox as int, oy as int, depth as int, col as int),
{
    if quadrant == NORTH {
        (ox + col, oy - depth)
    } else if quadrant == SOUTH {
        (ox + col, oy + depth)
    } else if quadrant == EAST {
        (ox + depth, oy + col)
    } else {
        (ox - depth, oy + col)
    }
}

/// Circular range test.
pub open spec fn spec_in_range(ox: int, oy: int, x: int, y: int, range: int) -> bool {
    (x - ox) * (x - ox) + (y - oy) * (y - oy) <= range * range
}

/// Check circular range constraint.
pub fn in_range(ox: i128, oy: i128, x: i128, y: i128, range: i128) -> (r: bool)
    requires
        -bound() * 8 <= ox <= bound() * 8,
        -bound() * 8 <= oy <= bound() * 8,
        -bound() * 8 <= x <= bound() * 8,
        -bound() * 8 <= y <= bound() * 8,
        -bound() * 8 <= range <= bound() * 8,
    ensures
        r == spec_in_range(ox as int, oy as int, x as int, y as int, range as int),
{
    let dx = x - ox;
    let dy = y - oy;
    proof {
        assert(dx * dx <= 256 * bound() * bound()) by (nonlinear_arith)
            requires
                -16 * bound() <= dx <= 16 * bound(),
        ;
        assert(dy * dy <= 256 * bound() * bound()) by (nonlinear_arith)
            requires
                -16 * bound() <= dy <= 16 * bound(),
        ;
        assert(0 <= dx * dx && 0 <= dy * dy) by (nonlinear_arith);
        assert(0 <= range * range <= 64 * bound() * bound()) by (nonlinear_arith)
            requires
                -8 * bound() <= range <= 8 * bound(),
        ;
    }
    dx * dx + dy * dy <= range * range
}

/// First column of the row at `depth` inside the cone starting at `start`.
pub open spec fn min_col(depth: int, start: Slope) -> int {
    spec_round_ties_up(depth * start.num, start.den as int)
}

/// Last column of the row at `depth` inside the cone ending at `end`.
pub open spec fn max_col(depth: int, end: Slope) -> int {
    spec_round_ties_down(depth * end.num, end.den as int)
}

/// A start slope handled by the scan: positive denominator, value in `[-1, 1]`.
pub open spec fn start_ok(s: Slope) -> bool {
    0 < s.den <= 4 * bound() && -s.den <= s.num <= s.den
}

/// An end slope handled by the scan: positive denominator, value in `[-2, 1]`.
pub open spec fn end_ok(s: Slope) -> bool {
    0 < s.den <= 4 * bound() && -2 * s.den <= s.num <= s.den
}

proof fn lemma_row_bounds(depth: int, s: Slope, e: Slope)
    requires
        1 <= depth <= bound(),
        start_ok(s),
        end_ok(e),
    ensures
        -bound() * bound() * 8 <= depth * s.num <= bound() * bound() * 8,
        -bound() * bound() * 8 <= depth * e.num <= bound() * bound() * 8,
        -depth <= min_col(depth, s) <= depth,
        -2 * depth <= max_col(depth, e) <= depth,
{
    assert(-bound() * bound() * 8 <= depth * s.num <= bound() * bound() * 8) by (nonlinear_arith)
        requires
            1 <= depth <= bound(),
            -4 * bound() <= s.num <= 4 * bound(),
    ;
    assert(-bound() * bound() * 8 <= depth * e.num <= bound() * bound() * 8) by (nonlinear_arith)
        requires
            1 <= depth <= bound(),
            -8 * bound() <= e.num <= 4 * bound(),
    ;
    let a = depth * s.num;
    let d = s.den as int;
    assert(-depth * d <= a <= depth * d) by (nonlinear_arith)
        requires
            a == depth * s.num,
            -d <= s.num <= d,
            depth >= 1,
    ;
    assert(-depth <= (2 * a + d) / (2 * d) <= depth) by (nonlinear_arith)
        requires
            -depth * d <= a <= depth * d,
            d >= 1,
            depth >= 1,
    ;
    let a2 = depth * e.num;
    let d2 = e.den as int;
    assert(-2 * depth * d2 <= a2 <= depth * d2) by (nonlinear_arith)
        requires
            a2 == depth * e.num,
            -2 * d2 <= e.num <= d2,
            depth >= 1,
    ;
    assert(-depth <= (d2 - 2 * a2) / (2 * d2) <= 2 * depth) by (nonlinear_arith)
        requires
            -2 * depth * d2 <= a2 <= depth * d2,
            d2 >= 1,
            depth >= 1,
    ;
}

/// Generate tiles for a row at `depth` bounded by `(start_slope, end_slope)`:
/// `(col, slope of the tile's left edge)` for each column from
/// `min_col` to `max_col`.
pub fn row_tiles(depth: i128, start_slope: Slope, end_slope: Slope) -> (r: Vec<(i128, Slope)>)
    requires
        1 <= depth <= bound(),
        start_ok(start_slope),
        end_ok(end_slope),
    ensures
        r.len() == (if max_col(depth as int, end_slope) >= min_col(depth as int, start_slope) {
            max_col(depth as int, end_slope) - min_col(depth as int, start_slope) + 1
        } else {
            0
        }),
        forall|k: int|
            0 <= k < r.len() ==> (#[trigger] r@[k]).0 == min_col(depth as int, start_slope) + k && r@[k].1.num == 2
                * r@[k].0 - 1 && r@[k].1.den == 2 * depth,
{
    proof {
        lemma_row_bounds(depth as int, start_slope, end_slope);
    }
    let min_c = round_ties_up(depth * start_slope.num, start_slope.den);
    let max_c = round_ties_down(depth * end_slope.num, end_slope.den);
    let mut out: Vec<(i128, Slope)> = Vec::new();
    let mut col = min_c;
    while col <= max_c
        invariant
            min_c == min_col(depth as int, start_slope),
            max_c == max_col(depth as int, end_slope),
            -depth <= min_c,
            max_c <= depth,
            1 <= depth <= bound(),
            min_c <= col <= max_c + 1 || (col == min_c && max_c < min_c),
            out.len() == col - min_c,
            forall|k: int|
                0 <= k < out.len() ==> (#[trigger] out@[k]).0 == min_c + k && out@[k].1.num == 2 * out@[k].0 - 1
                    && out@[k].1.den == 2 * depth,
        decreases max_c + 1 - col,
    {
        out.push((col, tile_slope(depth, col)));
        col = col + 1;
    }
    out
}

/// Whether the center of the tile `(depth, col)` lies within the cone.
pub open spec fn spec_symmetric(depth: int, col: int, start: Slope, end: Slope) -> bool {
    col * start.den >= depth * start.num && col * end.den <= depth * end.num
}

/// Check if a floor tile's center (col, depth) is within the view cone.
pub fn is_symmetric(depth: i128, col: i128, start_slope: Slope, end_slope: Slope) -> (r: bool)
    requires
        1 <= depth <= bound(),
        -bound() * 2 <= col <= bound() * 2,
        start_ok(start_slope),
        end_ok(end_slope),
    ensures
        r == spec_symmetric(depth as int, col as int, start_slope, end_slope),
{
    proof {
        assert(-bound() * bound() * 8 <= col * start_slope.den <= bound() * bound() * 8) by (nonlinear_arith)
            requires
                -bound() * 2 <= col <= bound() * 2,
                0 < start_slope.den <= 4 * bound(),
        ;
        assert(-bound() * bound() * 8 <= col * end_slope.den <= bound() * bound() * 8) by (nonlinear_arith)
            requires
                -bound() * 2 <= col <= bound() * 2,
                0 < end_slope.den <= 4 * bound(),
        ;
        lemma_row_bounds(depth as int, start_slope, end_slope);
    }
    let above = col * start_slope.den >= depth * start_slope.num;
    let below = col * end_slope.den <= depth * end_slope.num;
    above && below
}

// ---------------------------------------------------------------------------
// Recursive symmetric shadowcasting (square grids only)
// ---------------------------------------------------------------------------

/// Whether the square position `(x, y)` on level `z` blocks sight: positions
/// that are not cells of the map, or cells that are not transparent.
pub open spec fn opaque_at(topo: Topology, x: int, y: int, z: i32) -> bool {
    !(i32::MIN <= x <= i32::MAX && i32::MIN <= y <= i32::MAX) || !topo.has_cell(
        CellKeyV::Square { x: x as i32, y: y as i32, z },
    ) || !topo.transparent(CellKeyV::Square { x: x as i32, y: y as i32, z })
}

/// A cell that shadowcasting may report: a square cell on level `oz` within
/// the circular range of the origin.
pub open spec fn fov_cell(ox: int, oy: int, oz: i32, range: int, c: CellKeyV) -> bool {
    &&& c is Square
    &&& c->Square_z == oz
    &&& spec_in_range(ox, oy, c->Square_x as int, c->Square_y as int, range)
}

/// The square cell at `(x, y)` on level `z`.
pub open spec fn square_at(x: int, y: int, z: i32) -> CellKeyV {
    CellKeyV::Square { x: x as i32, y: y as i32, z }
}

/// What a scan of the row at `depth` in the cone `(start, end)` is sure to
/// reveal: every in-range wall tile of the row, and every in-range floor tile
/// whose center lies within the cone.
pub open spec fn row_revealed(
    topo: Topology,
    ox: int,
    oy: int,
    oz: i32,
    range: int,
    quadrant: u8,
    depth: int,
    start: Slope,
    end: Slope,
    visible: Set<CellKeyV>,
) -> bool {
    forall|col: int|
        #![trigger spec_transform(quadrant, ox, oy, depth, col)]
        min_col(depth, start) <= col <= max_col(depth, end) ==> {
            let (x, y) = spec_transform(quadrant, ox, oy, depth, col);
            (i32::MIN <= x <= i32::MAX && i32::MIN <= y <= i32::MAX && spec_in_range(ox, oy, x, y, range) && (
            opaque_at(topo, x, y, oz) || spec_symmetric(depth, col, start, end))) ==> visible.contains(
                square_at(x, y, oz),
            )
        }
}

/// Whether every tile of the cone `(start, end)` from row `depth` to row
/// `range` is a transparent cell of the map.
pub open spec fn clear_cone(
    topo: Topology,
    ox: int,
    oy: int,
    oz: i32,
    range: int,
    quadrant: u8,
    depth: int,
    start: Slope,
    end: Slope,
) -> bool {
    forall|d: int, col: int|
        #![trigger spec_transform(quadrant, ox, oy, d, col)]
        depth <= d <= range && min_col(d, start) <= col <= max_col(d, end) ==> {
            let (x, y) = spec_transform(quadrant, ox, oy, d, col);
            !opaque_at(topo, x, y, oz)
        }
}

/// Insert the square cell `(x, y, oz)` into `visible`.
fn reveal_cell(visible: &mut KeySet<CellKey>, x: i128, y: i128, oz: i32)
    requires
        i32::MIN <= x <= i32::MAX,
        i32::MIN <= y <= i32::MAX,
    ensures
        final(visible)@ == old(visible)@.insert(square_at(x as int, y as int, oz)),
{
    visible.insert(CellKey::Square { x: x as i32, y: y as i32, z: oz });
}

/// Whether `(x, y)` on level `oz` blocks sight.
fn is_opaque(topo: &Topology, x: i128, y: i128, oz: i32) -> (r: bool)
    ensures
        r == opaque_at(*topo, x as int, y as int, oz),
{
    if x < i32::MIN as i128 || x > i32::MAX as i128 || y < i32::MIN as i128 || y > i32::MAX as i128 {
        return true;
    }
    let cell = CellKey::Square { x: x as i32, y: y as i32, z: oz };
    !topo.contains(&cell) || !is_transparent(topo, &cell)
}

/// Recursively scan a row of tiles at `depth` bounded by the slope interval,
/// revealing tiles into `visible`.
pub fn scan(
    topo: &Topology,
    ox: i128,
    oy: i128,
    oz: i32,
    range: i128,
    quadrant: u8,
    visible: &mut KeySet<CellKey>,
    depth: i128,
    start_slope: Slope,
    end_slope: Slope,
)
    requires
        quadrant < 4,
        i32::MIN <= ox <= i32::MAX,
        i32::MIN <= oy <= i32::MAX,
        range <= i32::MAX,
        1 <= depth <= range + 1,
        depth <= bound(),
        start_ok(start_slope),
        end_ok(end_slope),
    ensures
        forall|c: CellKeyV| old(visible)@.contains(c) ==> final(visible)@.contains(c),
        forall|c: CellKeyV|
            #[trigger] final(visible)@.contains(c) && !old(visible)@.contains(c) ==> fov_cell(
                ox as int,
                oy as int,
                oz,
                range as int,
                c,
            ),
        depth <= range ==> row_revealed(
            *topo,
            ox as int,
            oy as int,
            oz,
            range as int,
            quadrant,
            depth as int,
            start_slope,
            end_slope,
            final(visible)@,
        ),
        clear_cone(*topo, ox as int, oy as int, oz, range as int, quadrant, depth as int, start_slope, end_slope)
            ==> forall|d: int| depth <= d <= range ==> #[trigger] row_revealed(
            *topo,
            ox as int,
            oy as int,
            oz,
            range as int,
            quadrant,
            d,
            start_slope,
            end_slope,
            final(visible)@,
        ),
    decreases range + 1 - depth,
{
    if depth > range {
        return;
    }
    let tiles = row_tiles(depth, start_slope, end_slope);
    let ghost mc = min_col(depth as int, start_slope);
    let mut prev_tile_was_wall = false;
    let mut current_start = start_slope;
    let mut i: usize = 0;
    proof {
        lemma_row_bounds(depth as int, start_slope, end_slope);
    }
    while i < tiles.len()
        invariant
            quadrant < 4,
            i32::MIN <= ox <= i32::MAX,
            i32::MIN <= oy <= i32::MAX,
            range <= i32::MAX,
            1 <= depth <= range,
            depth <= bound(),
            start_ok(start_slope),
            end_ok(end_slope),
            start_ok(current_start),
            prev_tile_was_wall ==> i > 0,
            -depth <= mc,
            max_col(depth as int, end_slope) <= depth,
            mc == min_col(depth as int, start_slope),
            i <= tiles.len(),
            tiles.len() == (if max_col(depth as int, end_slope) >= mc {
                max_col(depth as int, end_slope) - mc + 1
            } else {
                0
            }),
            forall|k: int|
                0 <= k < tiles.len() ==> (#[trigger] tiles@[k]).0 == mc + k && tiles@[k].1.num == 2 * tiles@[k].0 - 1
                    && tiles@[k].1.den == 2 * depth,
            current_start == start_slope || (current_start.den == 2 * depth && current_start.num <= 2 * (mc + i) - 1),
            clear_cone(*topo, ox as int, oy as int, oz, range as int, quadrant, depth as int, start_slope, end_slope)
                ==> !prev_tile_was_wall && current_start == start_slope,
            forall|c: CellKeyV| old(visible)@.contains(c) ==> visible@.contains(c),
            forall|c: CellKeyV|
                #[trigger] visible@.contains(c) && !old(visible)@.contains(c) ==> fov_cell(
                    ox as int,
                    oy as int,
                    oz,
                    range as int,
                    c,
                ),
            forall|col: int|
                #![trigger spec_transform(quadrant, ox as int, oy as int, depth as int, col)]
                mc <= col < mc + i ==> {
                    let (x, y) = spec_transform(quadrant, ox as int, oy as int, depth as int, col);
                    (i32::MIN <= x <= i32::MAX && i32::MIN <= y <= i32::MAX && spec_in_range(
                        ox as int,
                        oy as int,
                        x,
                        y,
                        range as int,
                    ) && (opaque_at(*topo, x, y, oz) || spec_symmetric(depth as int, col, start_slope, end_slope)))
                        ==> visible@.contains(square_at(x, y, oz))
                },
        decreases tiles.len() - i,
    {
        let (col, ts) = tiles[i];
        let (x, y) = quadrant_transform(quadrant, ox, oy, depth, col);
        let ghost before = visible@;
        if x >= i32::MIN as i128 && x <= i32::MAX as i128 && y >= i32::MIN as i128 && y <= i32::MAX as i128 && in_range(
            ox,
            oy,
            x,
            y,
            range,
        ) {
            let opaque = is_opaque(topo, x, y, oz);
            let sym = is_symmetric(depth, col, current_start, end_slope);
            proof {
                if clear_cone(*topo, ox as int, oy as int, oz, range as int, quadrant, depth as int, start_slope, end_slope) {
                    assert(col == mc + i);
                    assert(spec_transform(quadrant, ox as int, oy as int, depth as int, col as int) == (x as int, y as int));
                    assert(!opaque);
                }
            }
            proof {
                if !opaque && spec_symmetric(depth as int, col as int, start_slope, end_slope) && current_start
                    != start_slope {
                    assert(col * current_start.den >= depth * current_start.num) by (nonlinear_arith)
                        requires
                            current_start.den == 2 * depth,
                            current_start.num <= 2 * col - 1,
                            depth >= 1,
                    ;
                }
            }
            if opaque || sym {
                reveal_cell(visible, x, y, oz);
            }
            if prev_tile_was_wall && !opaque {
                current_start = ts;
            }
            if !prev_tile_was_wall && opaque {
                let ghost mid = visible@;
                scan(topo, ox, oy, oz, range, quadrant, visible, depth + 1, current_start, ts);
                proof {
                    assert(visible@.contains(square_at(x as int, y as int, oz)) || !(opaque || sym));
                }
            }
            prev_tile_was_wall = opaque;
        } else {
            proof {
                assert(!(i32::MIN <= x <= i32::MAX && i32::MIN <= y <= i32::MAX && spec_in_range(
                    ox as int,
                    oy as int,
                    x as int,
                    y as int,
                    range as int,
                )));
            }
        }
        proof {
            assert forall|c2: int|
                #![trigger spec_transform(quadrant, ox as int, oy as int, depth as int, c2)]
                mc <= c2 < mc + i + 1 implies {
                    let (x2, y2) = spec_transform(quadrant, ox as int, oy as int, depth as int, c2);
                    (i32::MIN <= x2 <= i32::MAX && i32::MIN <= y2 <= i32::MAX && spec_in_range(
                        ox as int,
                        oy as int,
                        x2,
                        y2,
                        range as int,
                    ) && (opaque_at(*topo, x2, y2, oz) || spec_symmetric(depth as int, c2, start_slope, end_slope)))
                        ==> visible@.contains(square_at(x2, y2, oz))
                } by {
                if c2 < mc + i {
                    let (x2, y2) = spec_transform(quadrant, ox as int, oy as int, depth as int, c2);
                    if (i32::MIN <= x2 <= i32::MAX && i32::MIN <= y2 <= i32::MAX && spec_in_range(
                        ox as int,
                        oy as int,
                        x2,
                        y2,
                        range as int,
                    ) && (opaque_at(*topo, x2, y2, oz) || spec_symmetric(depth as int, c2, start_slope, end_slope))) {
                        assert(before.contains(square_at(x2, y2, oz)));
                    }
                } else {
                    assert(c2 == col);
                }
            }
        }
        i = i + 1;
    }
    let ghost row_done = visible@;
    if !prev_tile_was_wall {
        scan(topo, ox, oy, oz, range, quadrant, visible, depth + 1, current_start, end_slope);
    }
    proof {
        assert(row_revealed(*topo, ox as int, oy as int, oz, range as int, quadrant, depth as int, start_slope, end_slope, row_done)) by {
            assert(mc + tiles.len() > max_col(depth as int, end_slope));
        }
        if clear_cone(*topo, ox as int, oy as int, oz, range as int, quadrant, depth as int, start_slope, end_slope) {
            assert(clear_cone(*topo, ox as int, oy as int, oz, range as int, quadrant, depth + 1, start_slope, end_slope));
            assert forall|d: int| depth <= d <= range implies #[trigger] row_revealed(
                *topo,
                ox as int,
                oy as int,
                oz,
                range as int,
                quadrant,
                d,
                start_slope,
                end_slope,
                visible@,
            ) by {
                if d == depth {
                    assert forall|col: int|
                        #![trigger spec_transform(quadrant, ox as int, oy as int, d, col)]
                        min_col(d, start_slope) <= col <= max_col(d, end_slope) implies {
                            let (x, y) = spec_transform(quadrant, ox as int, oy as int, d, col);
                            (i32::MIN <= x <= i32::MAX && i32::MIN <= y <= i32::MAX && spec_in_range(ox as int, oy as int, x, y, range as int) && (
                            opaque_at(*topo, x, y, oz) || spec_symmetric(d, col, start_slope, end_slope))) ==> visible@.contains(
                                square_at(x, y, oz),
                            )
                        } by {
                        let (x, y) = spec_transform(quadrant, ox as int, oy as int, d, col);
                        if (i32::MIN <= x <= i32::MAX && i32::MIN <= y <= i32::MAX && spec_in_range(ox as int, oy as int, x, y, range as int) && (
                            opaque_at(*topo, x, y, oz) || spec_symmetric(d, col, start_slope, end_slope))) {
                            assert(row_done.contains(square_at(x, y, oz)));
                        }
                    }
                }
            }
        }
    }
}

/// A square cell next to the origin `(ox, oy, oz)` (one of the eight
/// surrounding cells) that lies within the circular range.
pub open spec fn adjacent_in_range(ox: int, oy: int, oz: i32, range: int, dx: int, dy: int) -> bool {
    &&& -1 <= dx <= 1
    &&& -1 <= dy <= 1
    &&& !(dx == 0 && dy == 0)
    &&& i32::MIN <= ox + dx <= i32::MAX
    &&& i32::MIN <= oy + dy <= i32::MAX
    &&& dx * dx + dy * dy <= range * range
}

/// Whether every square position within `range` steps of `(ox, oy)` along
/// both axes, on level `oz`, is a transparent cell of the map.
pub open spec fn clear_square(topo: Topology, ox: int, oy: int, oz: i32, range: int) -> bool {
    forall|x: int, y: int|
        ox - range <= x <= ox + range && oy - range <= y <= oy + range ==> !#[trigger] opaque_at(topo, x, y, oz)
}

/// Recursive symmetric shadowcasting from `origin` (square grids only):
/// the origin plus the cells revealed by scanning the four quadrants.
#[verifier::spinoff_prover]
pub fn shadowcast_fov(origin: &CellKey, range: u32, topology: &Topology) -> (r: KeySet<CellKey>)
    ensures
        !(origin@ is Square) || range == 0 ==> r@ == Set::<CellKeyV>::empty(),
        origin@ is Square && range > 0 ==> {
            let ox = origin@->Square_x as int;
            let oy = origin@->Square_y as int;
            let oz = origin@->Square_z;
            let rr = (#[verifier::truncate] (range as i32)) as int;
            &&& r@.contains(origin@)
            &&& forall|c: CellKeyV| #[trigger] r@.contains(c) ==> c == origin@ || fov_cell(ox, oy, oz, rr, c)
            &&& rr >= 1 ==> forall|dx: int, dy: int|
                adjacent_in_range(ox, oy, oz, rr, dx, dy) ==> r@.contains(#[trigger] square_at(ox + dx, oy + dy, oz))
            &&& rr >= 1 && clear_square(*topology, ox, oy, oz, rr) ==> forall|x: int, y: int|
                spec_in_range(ox, oy, x, y, rr) ==> r@.contains(#[trigger] square_at(x, y, oz))
        },
{
    let (ox, oy, oz) = match origin {
        CellKey::Square { x, y, z } => (*x, *y, *z),
        _ => return KeySet::new(),
    };
    if range == 0 {
        return KeySet::new();
    }
    let range = #[verifier::truncate] (range as i32);
    let mut visible: KeySet<CellKey> = KeySet::new();
    visible.insert(origin.copy_key());
    let ghost s0 = visible@;
    if range >= 1 {
        let ox = ox as i128;
        let oy = oy as i128;
        let rr = range as i128;
        scan(topology, ox, oy, oz, rr, NORTH, &mut visible, 1, Slope::neg_one(), Slope::one());
        let ghost s1 = visible@;
        scan(topology, ox, oy, oz, rr, SOUTH, &mut visible, 1, Slope::neg_one(), Slope::one());
        let ghost s2 = visible@;
        scan(topology, ox, oy, oz, rr, EAST, &mut visible, 1, Slope::neg_one(), Slope::one());
        let ghost s3 = visible@;
        scan(topology, ox, oy, oz, rr, WEST, &mut visible, 1, Slope::neg_one(), Slope::one());
        proof {
            let neg = Slope { num: -1i128, den: 1i128 };
            let one = Slope { num: 1i128, den: 1i128 };
            assert((2 * (-1int) + 1) / 2 == -1) by (nonlinear_arith);
            assert((1 - 2 * 1int) / 2 == -1) by (nonlinear_arith);
            assert(min_col(1, neg) == -1);
            assert(max_col(1, one) == 1);
            assert forall|dx: int, dy: int|
                adjacent_in_range(ox as int, oy as int, oz, rr as int, dx, dy) implies visible@.contains(
                #[trigger] square_at(ox + dx, oy + dy, oz),
            ) by {
                if dy == -1 {
                    assert(spec_transform(NORTH, ox as int, oy as int, 1, dx) == (ox + dx, oy + dy));
                    assert(spec_symmetric(1, dx, neg, one));
                    assert(s1.contains(square_at(ox + dx, oy + dy, oz)));
                } else if dy == 1 {
                    assert(spec_transform(SOUTH, ox as int, oy as int, 1, dx) == (ox + dx, oy + dy));
                    assert(spec_symmetric(1, dx, neg, one));
                    assert(s2.contains(square_at(ox + dx, oy + dy, oz)));
                } else if dx == 1 {
                    assert(spec_transform(EAST, ox as int, oy as int, 1, dy) == (ox + dx, oy + dy));
                    assert(spec_symmetric(1, dy, neg, one));
                    assert(s3.contains(square_at(ox + dx, oy + dy, oz)));
                } else {
                    assert(spec_transform(WEST, ox as int, oy as int, 1, dy) == (ox + dx, oy + dy));
                    assert(spec_symmetric(1, dy, neg, one));
                }
            }
            if clear_square(*topology, ox as int, oy as int, oz, rr as int) {
                lemma_clear_square_cones(*topology, ox as int, oy as int, oz, rr as int);
                assert forall|x: int, y: int| spec_in_range(ox as int, oy as int, x, y, rr as int) implies visible@.contains(
                    #[trigger] square_at(x, y, oz),
                ) by {
                    let dx = x - ox;
                    let dy = y - oy;
                    assert(dx * dx + dy * dy <= rr * rr);
                    lemma_in_range_box(dx, dy, rr as int);
                    assert(!opaque_at(*topology, x, y, oz));
                    if dx == 0 && dy == 0 {
                        assert(square_at(x, y, oz) == origin@);
                    } else if dy < 0 && -dy >= dx && -dy >= -dx {
                        let d = -dy;
                        assert(spec_transform(NORTH, ox as int, oy as int, d, dx) == (x, y));
                        assert(row_revealed(*topology, ox as int, oy as int, oz, rr as int, NORTH, d, neg, one, s1));
                        lemma_full_cone_symmetric(d, dx);
                        lemma_cone_cols(d);
                        assert(s1.contains(square_at(x, y, oz)));
                    } else if dy > 0 && dy >= dx && dy >= -dx {
                        let d = dy;
                        assert(spec_transform(SOUTH, ox as int, oy as int, d, dx) == (x, y));
                        assert(row_revealed(*topology, ox as int, oy as int, oz, rr as int, SOUTH, d, neg, one, s2));
                        lemma_full_cone_symmetric(d, dx);
                        lemma_cone_cols(d);
                        assert(s2.contains(square_at(x, y, oz)));
                    } else if dx > 0 {
                        let d = dx;
                        assert(spec_transform(EAST, ox as int, oy as int, d, dy) == (x, y));
                        assert(row_revealed(*topology, ox as int, oy as int, oz, rr as int, EAST, d, neg, one, s3));
                        lemma_full_cone_symmetric(d, dy);
                        lemma_cone_cols(d);
                        assert(s3.contains(square_at(x, y, oz)));
                    } else {
                        let d = -dx;
                        assert(spec_transform(WEST, ox as int, oy as int, d, dy) == (x, y));
                        assert(row_revealed(*topology, ox as int, oy as int, oz, rr as int, WEST, d, neg, one, visible@));
                        lemma_full_cone_symmetric(d, dy);
                        lemma_cone_cols(d);
                    }
                }
            }
        }
    }
    visible
}

/// Every column from `-d` to `d` has its tile center in the full cone.
proof fn lemma_full_cone_symmetric(d: int, col: int)
    requires
        -d <= col <= d,
    ensures
        spec_symmetric(d, col, Slope { num: -1i128, den: 1i128 }, Slope { num: 1i128, den: 1i128 }),
{
    assert(col * 1 >= d * -1 && col * 1 <= d * 1) by (nonlinear_arith)
        requires
            -d <= col <= d,
    ;
}

/// The full cone `(-1, 1)` at row `d` spans the columns `-d` to `d`.
proof fn lemma_cone_cols(d: int)
    requires
        d >= 1,
    ensures
        min_col(d, Slope { num: -1i128, den: 1i128 }) == -d,
        max_col(d, Slope { num: 1i128, den: 1i128 }) == d,
{
    assert(spec_round_ties_up(d * -1, 1) == (2 * (d * -1) + 1) / 2);
    assert((2 * (d * -1) + 1) / 2 == -d) by (nonlinear_arith)
        requires
            d >= 1,
    ;
    assert(spec_round_ties_down(d * 1, 1) == -((1 - 2 * (d * 1)) / 2));
    assert((1 - 2 * (d * 1)) / 2 == -d) by (nonlinear_arith)
        requires
            d >= 1,
    ;
}

/// A point within the circular range lies within the square box of the range.
proof fn lemma_in_range_box(dx: int, dy: int, r: int)
    requires
        dx * dx + dy * dy <= r * r,
        r >= 0,
    ensures
        -r <= dx <= r,
        -r <= dy <= r,
{
    assert(dx * dx <= r * r) by (nonlinear_arith)
        requires
            dx * dx + dy * dy <= r * r,
    ;
    assert(dy * dy <= r * r) by (nonlinear_arith)
        requires
            dx * dx + dy * dy <= r * r,
    ;
    assert(-r <= dx <= r) by (nonlinear_arith)
        requires
            dx * dx <= r * r,
            r >= 0,
    ;
    assert(-r <= dy <= r) by (nonlinear_arith)
        requires
            dy * dy <= r * r,
            r >= 0,
    ;
}

/// A clear box around the origin makes each quadrant's full cone clear.
proof fn lemma_clear_square_cones(topo: Topology, ox: int, oy: int, oz: i32, r: int)
    requires
        clear_square(topo, ox, oy, oz, r),
    ensures
        clear_cone(topo, ox, oy, oz, r, NORTH, 1, Slope { num: -1i128, den: 1i128 }, Slope { num: 1i128, den: 1i128 }),
        clear_cone(topo, ox, oy, oz, r, SOUTH, 1, Slope { num: -1i128, den: 1i128 }, Slope { num: 1i128, den: 1i128 }),
        clear_cone(topo, ox, oy, oz, r, EAST, 1, Slope { num: -1i128, den: 1i128 }, Slope { num: 1i128, den: 1i128 }),
        clear_cone(topo, ox, oy, oz, r, WEST, 1, Slope { num: -1i128, den: 1i128 }, Slope { num: 1i128, den: 1i128 }),
{
    let neg = Slope { num: -1i128, den: 1i128 };
    let one = Slope { num: 1i128, den: 1i128 };
    assert forall|q: u8, d: int, col: int|
        q < 4 && 1 <= d <= r && min_col(d, neg) <= col <= max_col(d, one) implies {
            let (x, y) = #[trigger] spec_transform(q, ox, oy, d, col);
            !opaque_at(topo, x, y, oz)
        } by {
        lemma_cone_cols(d);
        let (x, y) = spec_transform(q, ox, oy, d, col);
        assert(!opaque_at(topo, x, y, oz));
    }
}

/// `c` is reachable from `origin` in at most `k` steps, moving from the origin
/// or a transparent cell to one of its neighbors that is a cell of the map.
pub open spec fn bfs_reach(topo: Topology, origin: CellKeyV, c: CellKeyV, k: nat) -> bool
    decreases k,
{
    c == origin || (k > 0 && exists|p: CellKeyV|
        #![trigger topo.nbrs(p).contains(c)]
        bfs_reach(topo, origin, p, (k - 1) as nat) && (p == origin || topo.transparent(p)) && topo.nbrs(p).contains(c)
            && topo.has_cell(c))
}

/// Reachability within `k` steps implies reachability within more steps.
pub proof fn lemma_bfs_reach_mono(topo: Topology, origin: CellKeyV, c: CellKeyV, k: nat, k2: nat)
    requires
        bfs_reach(topo, origin, c, k),
        k <= k2,
    ensures
        bfs_reach(topo, origin, c, k2),
    decreases k,
{
    if c != origin {
        let p = choose|p: CellKeyV|
            #![trigger topo.nbrs(p).contains(c)]
            bfs_reach(topo, origin, p, (k - 1) as nat) && (p == origin || topo.transparent(p)) && topo.nbrs(p).contains(c)
                && topo.has_cell(c);
        lemma_bfs_reach_mono(topo, origin, p, (k - 1) as nat, (k2 - 1) as nat);
    }
}

/// Breadth-first flood fill from `origin`: walls are visible but block
/// further propagation; range is counted in steps.
pub fn bfs_fov(origin: &CellKey, range: u32, topology: &Topology) -> (r: KeySet<CellKey>)
    ensures
        range == 0 || !topology.has_cell(origin@) ==> r@ == Set::<CellKeyV>::empty(),
        range > 0 && topology.has_cell(origin@) ==> {
            let rr = (#[verifier::truncate] (range as i32)) as int;
            &&& r@.contains(origin@)
            &&& forall|c: CellKeyV| #[trigger] r@.contains(c) ==> c == origin@ || (topology.has_cell(c) && rr >= 1
                && bfs_reach(*topology, origin@, c, rr as nat))
            &&& rr >= 1 ==> forall|c: CellKeyV|
                #[trigger] topology.nbrs(origin@).contains(c) && topology.has_cell(c) ==> r@.contains(c)
        },
{
    if range == 0 {
        return KeySet::new();
    }
    if !topology.contains(origin) {
        return KeySet::new();
    }
    let range = #[verifier::truncate] (range as i32);
    let ghost rr: int = range as int;
    let ghost o = origin@;
    let ghost dom = topology.cell_dom().insert(o);
    proof {
        topology.lemma_cell_dom();
    }
    let mut visible: KeySet<CellKey> = KeySet::new();
    let mut queue: std::collections::VecDeque<(CellKey, i32)> = std::collections::VecDeque::new();
    visible.insert(origin.copy_key());
    queue.push_back((origin.copy_key(), 0));
    let ghost mut first = true;
    while queue.len() > 0
        invariant
            dom == topology.cell_dom().insert(o),
            dom.finite(),
            o == origin@,
            rr == range as int,
            topology.has_cell(o),
            forall|c: CellKeyV| #[trigger] topology.has_cell(c) ==> topology.cell_dom().contains(c),
            visible@.subset_of(dom),
            visible@.contains(o),
            forall|c: CellKeyV| #[trigger] visible@.contains(c) ==> c == o || (topology.has_cell(c) && rr >= 1
                && bfs_reach(*topology, o, c, rr as nat)),
            forall|k: int|
                0 <= k < queue@.len() ==> 0 <= (#[trigger] queue@[k]).1 && (queue@[k].1 <= rr || queue@[k].1 == 0)
                    && visible@.contains(queue@[k].0@)
                    && bfs_reach(*topology, o, queue@[k].0@, queue@[k].1 as nat) && (queue@[k].0@ == o
                    || topology.transparent(queue@[k].0@)),
            first ==> queue@.len() == 1 && queue@[0].0@ == o && queue@[0].1 == 0,
            !first && rr >= 1 ==> forall|c: CellKeyV|
                #[trigger] topology.nbrs(o).contains(c) && topology.has_cell(c) ==> visible@.contains(c),
        decreases dom.len() - visible@.len(), queue@.len(),
    {
        proof {
            vstd::set_lib::lemma_len_subset(visible@, dom);
        }
        let ghost v0 = visible@.len();
        let ghost q_before = queue@.len();
        let (current, depth) = match queue.pop_front() {
            Some(e) => e,
            None => {
                proof {
                    assert(false);
                }
                return visible;
            },
        };
        let ghost q0 = queue@.len();
        let ghost was_first = first;
        proof {
            first = false;
        }
        if depth >= range {
            proof {
                assert(!(was_first && rr >= 1));
            }
            continue;
        }
        let nbrs = topology.neighbors(&current);
        let mut j: usize = 0;
        while j < nbrs.len()
            invariant
                dom == topology.cell_dom().insert(o),
                dom.finite(),
                o == origin@,
                rr == range as int,
                0 <= depth < rr,
                bfs_reach(*topology, o, current@, depth as nat),
                current@ == o || topology.transparent(current@),
                forall|i: int| 0 <= i < nbrs.len() ==> topology.nbrs(current@).contains(#[trigger] nbrs@[i]@),
                forall|c: CellKeyV| #[trigger] topology.has_cell(c) ==> topology.cell_dom().contains(c),
                visible@.subset_of(dom),
                visible@.contains(o),
                v0 <= visible@.len(),
                queue@.len() <= q0 + (visible@.len() - v0),
                forall|c: CellKeyV| #[trigger] visible@.contains(c) ==> c == o || (topology.has_cell(c) && rr >= 1
                    && bfs_reach(*topology, o, c, rr as nat)),
                forall|k: int|
                    0 <= k < queue@.len() ==> 0 <= (#[trigger] queue@[k]).1 && (queue@[k].1 <= rr || queue@[k].1 == 0)
                        && visible@.contains(queue@[k].0@) && bfs_reach(*topology, o, queue@[k].0@, queue@[k].1 as nat) && (queue@[k].0@ == o
                        || topology.transparent(queue@[k].0@)),
                forall|i: int|
                    0 <= i < j && topology.has_cell(#[trigger] nbrs@[i]@) ==> visible@.contains(nbrs@[i]@),
                !was_first && rr >= 1 ==> forall|c: CellKeyV|
                    #[trigger] topology.nbrs(o).contains(c) && topology.has_cell(c) ==> visible@.contains(c),
            decreases nbrs.len() - j,
        {
            let neighbor = &nbrs[j];
            if !topology.contains(neighbor) || visible.contains(neighbor) {
                j = j + 1;
                continue;
            }
            let opaque = !is_transparent(topology, neighbor);
            proof {
                let n = neighbor@;
                assert(bfs_reach(*topology, o, n, (depth + 1) as nat)) by {
                    assert(topology.nbrs(current@).contains(n));
                }
                lemma_bfs_reach_mono(*topology, o, n, (depth + 1) as nat, rr as nat);
                vstd::set_lib::lemma_len_subset(visible@, dom);
            }
            visible.insert(neighbor.copy_key());
            if !opaque {
                queue.push_back((neighbor.copy_key(), depth + 1));
            }
            j = j + 1;
        }
        proof {
            if was_first && rr >= 1 {
                assert forall|c: CellKeyV|
                    #[trigger] topology.nbrs(o).contains(c) && topology.has_cell(c) implies visible@.contains(c) by {
                    let i = choose|i: int| 0 <= i < nbrs.len() && #[trigger] nbrs@[i]@ == c;
                }
            }
            vstd::set_lib::lemma_len_subset(visible@, dom);
        }
    }
    visible
}

/// Compute visible cells from an origin within a given range.
///
/// Square maps use [`shadowcast_fov`], hex and province maps [`bfs_fov`].
/// The origin cell is always included in the result when it is on the map
/// (with a zero range it is the only cell); an origin outside the map sees
/// nothing.
pub fn compute_fov(map: &WorldMap, origin: &CellKey, range: u32) -> (r: KeySet<CellKey>)
    ensures
        !map.topology.has_cell(origin@) ==> r@ == Set::<CellKeyV>::empty(),
        map.topology.has_cell(origin@) ==> r@.contains(origin@),
        range == 0 && map.topology.has_cell(origin@) ==> r@ == Set::<CellKeyV>::empty().insert(origin@),
        range > 0 && map.topology.has_cell(origin@) && map.topology is Square ==> {
            let ox = origin@->Square_x as int;
            let oy = origin@->Square_y as int;
            let oz = origin@->Square_z;
            let rr = (#[verifier::truncate] (range as i32)) as int;
            &&& forall|c: CellKeyV| #[trigger] r@.contains(c) ==> c == origin@ || fov_cell(ox, oy, oz, rr, c)
            &&& rr >= 1 ==> forall|dx: int, dy: int|
                adjacent_in_range(ox, oy, oz, rr, dx, dy) ==> r@.contains(#[trigger] square_at(ox + dx, oy + dy, oz))
            &&& rr >= 1 && clear_square(map.topology, ox, oy, oz, rr) ==> forall|x: int, y: int|
                spec_in_range(ox, oy, x, y, rr) ==> r@.contains(#[trigger] square_at(x, y, oz))
        },
        range > 0 && map.topology.has_cell(origin@) && !(map.topology is Square) ==> {
            let rr = (#[verifier::truncate] (range as i32)) as int;
            &&& forall|c: CellKeyV| #[trigger] r@.contains(c) ==> c == origin@ || (map.topology.has_cell(c) && rr >= 1
                && bfs_reach(map.topology, origin@, c, rr as nat))
            &&& rr >= 1 ==> forall|c: CellKeyV|
                #[trigger] map.topology.nbrs(origin@).contains(c) && map.topology.has_cell(c) ==> r@.contains(c)
        },
{
    if !map.contains(origin) {
        return KeySet::new();
    }
    if range == 0 {
        let mut only = KeySet::new();
        only.insert(origin.copy_key());
        assert(only@ =~= Set::<CellKeyV>::empty().insert(origin@));
        return only;
    }
    let mut result = match &map.topology {
        Topology::Square(_) => shadowcast_fov(origin, range, &map.topology),
        _ => bfs_fov(origin, range, &map.topology),
    };
    result.insert(origin.copy_key());
    result
}

/// The cells a list holds.
pub open spec fn listed_cells(v: Seq<CellKey>) -> Set<CellKeyV> {
    Set::new(|c: CellKeyV| exists|i: int| 0 <= i < v.len() && #[trigger] v[i]@ == c)
}

/// No cell is listed twice.
pub open spec fn distinct_cells(v: Seq<CellKey>) -> bool {
    forall|i: int, j: int| 0 <= i < v.len() && 0 <= j < v.len() && i != j ==> v[i]@ != v[j]@
}

/// The items of a set, listed once each.
fn set_to_vec(set: &KeySet<CellKey>) -> (r: Vec<CellKey>)
    ensures
        listed_cells(r@) == set@,
        distinct_cells(r@),
        r.len() == set@.len(),
{
    let v = set.to_vec();
    proof {
        assert(listed_cells(v@) =~= set@) by {
            assert forall|c: CellKeyV| listed_cells(v@).contains(c) <==> set@.contains(c) by {
                if listed_cells(v@).contains(c) {
                    let i = choose|i: int| 0 <= i < v.len() && #[trigger] v@[i]@ == c;
                    assert(set.items()[i]@ == c);
                }
                if set@.contains(c) {
                    let i = choose|i: int| 0 <= i < set.items().len() && #[trigger] set.items()[i]@ == c;
                    assert(v@[i]@ == c);
                }
            }
        }
    }
    v
}

/// Recursive symmetric shadowcasting (square grids; empty for other origins).
pub struct RecursiveShadowcasting;

/// Breadth-first flood fill for any graph topology (hex and province maps).
pub struct BfsFovAlgorithm;

impl FovAlgorithm for RecursiveShadowcasting {
    fn compute_fov(&self, origin: &CellKey, range: u32, topology: &Topology) -> (r: Vec<CellKey>)
        ensures
            distinct_cells(r@),
            !(origin@ is Square) || range == 0 ==> r.len() == 0,
            origin@ is Square && range > 0 ==> {
                let ox = origin@->Square_x as int;
                let oy = origin@->Square_y as int;
                let oz = origin@->Square_z;
                let rr = (#[verifier::truncate] (range as i32)) as int;
                &&& listed_cells(r@).contains(origin@)
                &&& forall|c: CellKeyV| #[trigger] listed_cells(r@).contains(c) ==> c == origin@ || fov_cell(ox, oy, oz, rr, c)
                &&& rr >= 1 ==> forall|dx: int, dy: int|
                    adjacent_in_range(ox, oy, oz, rr, dx, dy) ==> listed_cells(r@).contains(#[trigger] square_at(ox + dx, oy + dy, oz))
            },
    {
        let set = shadowcast_fov(origin, range, topology);
        set_to_vec(&set)
    }

    fn name(&self) -> (r: &'static str)
        ensures
            r@ == "recursive_shadowcasting"@,
    {
        proof {
            reveal_strlit("recursive_shadowcasting");
        }
        "recursive_shadowcasting"
    }
}

impl FovAlgorithm for BfsFovAlgorithm {
    fn compute_fov(&self, origin: &CellKey, range: u32, topology: &Topology) -> (r: Vec<CellKey>)
        ensures
            distinct_cells(r@),
            range == 0 || !topology.has_cell(origin@) ==> r.len() == 0,
            range > 0 && topology.has_cell(origin@) ==> {
                let rr = (#[verifier::truncate] (range as i32)) as int;
                &&& listed_cells(r@).contains(origin@)
                &&& forall|c: CellKeyV| #[trigger] listed_cells(r@).contains(c) ==> c == origin@ || (topology.has_cell(c) && rr >= 1
                    && bfs_reach(*topology, origin@, c, rr as nat))
                &&& rr >= 1 ==> forall|c: CellKeyV|
                    #[trigger] topology.nbrs(origin@).contains(c) && topology.has_cell(c) ==> listed_cells(r@).contains(c)
            },
    {
        let set = bfs_fov(origin, range, topology);
        set_to_vec(&set)
    }

    fn name(&self) -> (r: &'static str)
        ensures
            r@ == "bfs_flood_fill"@,
    {
        proof {
            reveal_strlit("bfs_flood_fill");
        }
        "bfs_flood_fill"
    }
}

} // verus!
