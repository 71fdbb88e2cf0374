//! Per-particle motion: gravity, the column scan for obstacles, diagonal
//! slips and liquid flow, computed in fixed-point sub-cell units.
use vstd::prelude::*;
use crate::grid::{Grid, GridView, Handle, Rgba};

verus! {

/// How a particle moves.
#[derive(Clone, Copy, PartialEq, Eq, Structural, Debug)]
pub enum Behavior {
    /// Never moves.
    Static,
    /// Falls, and slips diagonally off what it lands on.
    Solid,
    /// Falls, slips diagonally, and flows sideways when it cannot.
    Liquid,
}

/// The motion state of a particle. Velocity is vertical only, in sub-cell
/// units per tick, negative downward: sideways motion is a per-tick slip,
/// never carried over.
#[derive(Clone, Copy, PartialEq, Eq, Structural, Debug)]
pub struct Particle {
    pub behavior: Behavior,
    pub v: i64,
}

/// A continuous position in sub-cell units: the cell at `(cx, cy)` covers
/// the positions within half a cell of `(cx * sub, cy * sub)`.
#[derive(Clone, Copy, PartialEq, Eq, Structural, Debug)]
pub struct Position {
    pub x: i64,
    pub y: i64,
}

impl Position {
    pub fn new(x: i64, y: i64) -> (p: Position)
        ensures
            p.x == x,
            p.y == y,
    {
        Position { x, y }
    }
}

impl Default for Particle {
    /// A static particle at rest.
    fn default() -> (p: Self)
        ensures
            p.behavior == Behavior::Static,
            p.v == 0,
    {
        Particle { behavior: Behavior::Static, v: 0 }
    }
}

impl Default for Position {
    /// The origin.
    fn default() -> (p: Self)
        ensures
            p.x == 0,
            p.y == 0,
    {
        Position { x: 0, y: 0 }
    }
}

/// Largest field side this library takes.
pub const MAX_SIDE: usize = 0x10_0000;

/// Largest number of sub-cell units per cell.
pub const MAX_SUB: i64 = 0x10_0000;

/// Sub-cell units per cell in the default configuration.
pub const DEFAULT_SUB: i64 = 60;

/// Downward acceleration per tick in the default configuration (2/60 of a
/// cell per tick, per tick).
pub const DEFAULT_GRAVITY: i64 = 2;

/// Speed limit in the default configuration (8 cells per tick).
pub const DEFAULT_MAX_V: i64 = 480;

/// The constants of one simulation: field size, the sub-cell resolution of
/// positions, gravity and the speed limit (both in sub-cell units), and the
/// color of an empty cell.
#[derive(Clone, Copy, PartialEq, Eq, Structural, Debug)]
pub struct Config {
    pub width: usize,
    pub height: usize,
    pub sub: i64,
    pub gravity: i64,
    pub max_v: i64,
    pub background: Rgba,
}

impl Config {
    /// The field is not empty, its buffer fits memory, gravity pulls down,
    /// and no particle falls a whole field height in one tick, so the column
    /// scan never wraps round onto the particle's own cell.
    pub open spec fn wf(self) -> bool {
        &&& 0 < self.width <= MAX_SIDE
        &&& 0 < self.height <= MAX_SIDE
        &&& self.width * self.height * 4 <= usize::MAX
        &&& 0 < self.sub <= MAX_SUB
        &&& 0 <= self.gravity <= self.height * self.sub
        &&& 0 <= self.max_v <= (self.height - 1) * self.sub
    }

    /// Field width in sub-cell units.
    pub open spec fn span_x(self) -> int {
        self.width * self.sub
    }

    /// Field height in sub-cell units.
    pub open spec fn span_y(self) -> int {
        self.height * self.sub
    }
}

impl Default for Config {
    /// A 200 by 200 field at 60 sub-cell units per cell.
    fn default() -> (c: Self)
        ensures
            c.wf(),
            c.width == crate::grid::FIELD_WIDTH,
            c.height == crate::grid::FIELD_HEIGHT,
            c.sub == DEFAULT_SUB,
            c.gravity == DEFAULT_GRAVITY,
            c.max_v == DEFAULT_MAX_V,
            c.background == crate::grid::default_background(),
    {
        let shade = crate::grid::BACKGROUND_SHADE;
        Config {
            width: crate::grid::FIELD_WIDTH,
            height: crate::grid::FIELD_HEIGHT,
            sub: DEFAULT_SUB,
            gravity: DEFAULT_GRAVITY,
            max_v: DEFAULT_MAX_V,
            background: Rgba { r: shade, g: shade, b: shade, a: 255 },
        }
    }
}

/// The cell nearest to a continuous coordinate; a coordinate halfway
/// between two cells belongs to the upper one.
pub open spec fn cell_of(p: int, sub: int) -> int {
    (2 * p + sub) / (2 * sub)
}

/// Velocity after one tick of gravity, clamped to the speed limit.
pub open spec fn integrate(v: int, cfg: Config) -> int {
    let w = v - cfg.gravity;
    if w < -cfg.max_v {
        -cfg.max_v as int
    } else if w > cfg.max_v {
        cfg.max_v as int
    } else {
        w
    }
}

/// A continuous coordinate brought back across one edge of a field that
/// spans `extent`.
pub open spec fn wrap_position_spec(p: int, extent: int) -> int {
    if p < 0 {
        p + extent
    } else if p > extent {
        p - extent
    } else {
        p
    }
}

/// Some particle is at `(x, y)`, after wrapping.
pub open spec fn occupied(g: GridView, x: int, y: int) -> bool {
    g.get(x, y) is Some
}

/// The highest occupied row in `[lo, hi)` of column `x`, scanning down.
pub open spec fn first_obstacle(g: GridView, x: int, lo: int, hi: int) -> Option<int>
    decreases hi - lo,
{
    if hi <= lo {
        None
    } else if occupied(g, x, hi - 1) {
        Some(hi - 1)
    } else {
        first_obstacle(g, x, lo, hi - 1)
    }
}

/// One particle's move in one tick: the cell it leaves, the cell it lands
/// in, and its new velocity and continuous position.
pub struct Plan {
    pub sx: int,
    pub sy: int,
    pub dx: int,
    pub dy: int,
    pub v: int,
    pub px: int,
    pub py: int,
}

/// Where a blocked particle goes once its fall stops above the obstacle at
/// `(cx, cy - 1)`: a diagonal slip down-left, else down-right (velocity
/// kept); else, for a liquid, a sideways step left, else right; else it
/// stays (velocity zeroed).
pub open spec fn deflect(g: GridView, b: Behavior, cx: int, cy: int, v: int) -> (int, int, int) {
    if !occupied(g, cx - 1, cy - 1) {
        (cx - 1, cy - 1, v)
    } else if !occupied(g, cx + 1, cy - 1) {
        (cx + 1, cy - 1, v)
    } else if b == Behavior::Liquid {
        if !occupied(g, cx - 1, cy) {
            (cx - 1, cy, 0)
        } else if !occupied(g, cx + 1, cy) {
            (cx + 1, cy, 0)
        } else {
            (cx, cy, 0)
        }
    } else {
        (cx, cy, 0)
    }
}

/// One tick of a moving particle with velocity `v` at `(px, py)` on grid
/// `g`: gravity, then a scan of its column for the first obstacle, from the
/// row just below its cell down to its target row. With none it falls freely and its
/// continuous position wraps at the field's edges; with one it stops above
/// it, is deflected, and snaps to the landing cell.
pub open spec fn plan(cfg: Config, g: GridView, b: Behavior, v: int, px: int, py: int) -> Plan {
    let sub = cfg.sub as int;
    let sx = cell_of(px, sub);
    let sy = cell_of(py, sub);
    let v1 = integrate(v, cfg);
    let py1 = py + v1;
    let ty = cell_of(py1, sub);
    match first_obstacle(g, sx, ty, sy) {
        None => Plan {
            sx,
            sy,
            dx: sx,
            dy: ty,
            v: v1,
            px: wrap_position_spec(px, cfg.span_x()),
            py: wrap_position_spec(py1, cfg.span_y()),
        },
        Some(oy) => {
            let (dx, dy, nv) = deflect(g, b, sx, oy + 1, v1);
            Plan { sx, sy, dx, dy, v: nv, px: g.wrap_x(dx) * sub, py: g.wrap_y(dy) * sub }
        },
    }
}

/// The cell nearest to a continuous coordinate (halves round up).
pub fn cell_of_position(p: i64, sub: i64) -> (r: i64)
    requires
        0 < sub <= MAX_SUB,
        -0x1000_0000_0000 <= p <= 0x1000_0000_0000,
    ensures
        r == cell_of(p as int, sub as int),
{
    let n: i64 = 2 * p + sub;
    let d: i64 = 2 * sub;
    if n >= 0 {
        n / d
    } else {
        let m: i64 = -n + d - 1;
        let q: i64 = m / d;
        proof {
            vstd::arithmetic::div_mod::lemma_fundamental_div_mod(m as int, d as int);
            assert(0 <= m % d < d);
            assert(q == m / d);
            assert(n == (-q) * d + (d - 1 - m % d)) by (nonlinear_arith)
                requires
                    m == d * q + m % d,
                    n == -m + d - 1,
            ;
            vstd::arithmetic::div_mod::lemma_fundamental_div_mod_converse(
                n as int,
                d as int,
                -q,
                d - 1 - m % d,
            );
        }
        -q
    }
}

/// Brings a continuous coordinate back across one edge of a field that
/// spans `extent`: below zero it gains `extent`, above `extent` it loses it.
pub fn wrap_position(p: i64, extent: i64) -> (r: i64)
    requires
        0 < extent <= 0x1000_0000_0000,
        -0x1000_0000_0000 <= p <= 0x1000_0000_0000,
    ensures
        r == wrap_position_spec(p as int, extent as int),
{
    if p < 0 {
        p + extent
    } else if p > extent {
        p - extent
    } else {
        p
    }
}


/// Moving a coordinate by `k` whole cells moves its cell by `k`.
pub proof fn lemma_cell_of_shift(p: int, sub: int, k: int)
    requires
        0 < sub,
    ensures
        cell_of(p + k * sub, sub) == cell_of(p, sub) + k,
{
    assert(2 * (p + k * sub) + sub == (2 * p + sub) + (2 * sub) * k) by (nonlinear_arith);
    vstd::arithmetic::div_mod::lemma_fundamental_div_mod(2 * p + sub, 2 * sub);
    let q = (2 * p + sub) / (2 * sub);
    let r = (2 * p + sub) % (2 * sub);
    assert((2 * p + sub) + (2 * sub) * k == (q + k) * (2 * sub) + r) by (nonlinear_arith)
        requires
            2 * p + sub == (2 * sub) * q + r,
    ;
    vstd::arithmetic::div_mod::lemma_fundamental_div_mod_converse(
        (2 * p + sub) + (2 * sub) * k,
        2 * sub,
        q + k,
        r,
    );
}

/// A cell's centre lies in that cell.
pub proof fn lemma_cell_of_exact(k: int, sub: int)
    requires
        0 < sub,
    ensures
        cell_of(k * sub, sub) == k,
{
    assert(2 * (k * sub) + sub == k * (2 * sub) + sub) by (nonlinear_arith);
    vstd::arithmetic::div_mod::lemma_fundamental_div_mod_converse(
        2 * (k * sub) + sub,
        2 * sub,
        k,
        sub,
    );
}

/// A higher coordinate is never in a lower cell.
pub proof fn lemma_cell_of_monotone(p1: int, p2: int, sub: int)
    requires
        0 < sub,
        p1 <= p2,
    ensures
        cell_of(p1, sub) <= cell_of(p2, sub),
{
    vstd::arithmetic::div_mod::lemma_div_is_ordered(2 * p1 + sub, 2 * p2 + sub, 2 * sub);
}

/// A position on the field (edges included) lies in a cell of the field or
/// on the far edge.
pub proof fn lemma_cell_of_bounds(p: int, sub: int, n: int)
    requires
        0 < sub,
        0 < n,
        0 <= p <= n * sub,
    ensures
        0 <= cell_of(p, sub) <= n,
{
    lemma_cell_of_monotone(0, p, sub);
    lemma_cell_of_monotone(p, n * sub, sub);
    lemma_cell_of_exact(0, sub);
    lemma_cell_of_exact(n, sub);
}

/// What the column scan finds: the row it reports is occupied, lies in the
/// range, and every row above it in the range is empty; when it finds
/// nothing, every row of the range is empty.
pub proof fn lemma_first_obstacle(g: GridView, x: int, lo: int, hi: int)
    ensures
        match first_obstacle(g, x, lo, hi) {
            None => forall|y: int| lo <= y < hi ==> !occupied(g, x, y),
            Some(oy) => {
                &&& lo <= oy < hi
                &&& occupied(g, x, oy)
                &&& forall|y: int| oy < y < hi ==> !occupied(g, x, y)
            },
        },
    decreases hi - lo,
{
    if hi > lo && !occupied(g, x, hi - 1) {
        lemma_first_obstacle(g, x, lo, hi - 1);
    }
}

/// The highest occupied row in `[lo, hi)` of column `x`.
pub fn find_obstacle(grid: &Grid, x: i64, lo: i64, hi: i64) -> (r: Option<i64>)
    requires
        grid@.wf(),
        i32::MIN <= x <= i32::MAX,
        i32::MIN < lo <= i32::MAX,
        i32::MIN < hi <= i32::MAX,
    ensures
        match r {
            None => first_obstacle(grid@, x as int, lo as int, hi as int) is None,
            Some(y) => first_obstacle(grid@, x as int, lo as int, hi as int) == Some(y as int),
        },
{
    let mut y: i64 = hi;
    while y > lo
        invariant
            grid@.wf(),
            i32::MIN <= x <= i32::MAX,
            i32::MIN < lo <= i32::MAX,
            lo <= y || y == hi,
            y <= hi <= i32::MAX,
            i32::MIN < hi,
            first_obstacle(grid@, x as int, lo as int, hi as int) == first_obstacle(
                grid@,
                x as int,
                lo as int,
                y as int,
            ),
        decreases y - lo,
    {
        if grid.get(x as i32, (y - 1) as i32).is_some() {
            return Some(y - 1);
        }
        y = y - 1;
    }
    None
}

/// One particle's move, in machine integers.
#[derive(Clone, Copy, PartialEq, Eq, Structural, Debug)]
pub struct Move {
    pub source_x: i64,
    pub source_y: i64,
    pub dest_x: i64,
    pub dest_y: i64,
    pub v: i64,
    pub position: Position,
}

impl Move {
    pub open spec fn is_plan(self, p: Plan) -> bool {
        &&& self.source_x == p.sx
        &&& self.source_y == p.sy
        &&& self.dest_x == p.dx
        &&& self.dest_y == p.dy
        &&& self.v == p.v
        &&& self.position.x == p.px
        &&& self.position.y == p.py
    }
}

/// The grid matches the configuration's field.
pub open spec fn fits(cfg: Config, g: GridView) -> bool {
    &&& g.wf()
    &&& g.xsize == cfg.width
    &&& g.ysize == cfg.height
    &&& g.background == cfg.background
}

/// A moving particle's state is one that ticks keep: on the field (edges
/// included), and at rest or falling no faster than the limit.
pub open spec fn in_bounds(cfg: Config, v: int, px: int, py: int) -> bool {
    &&& 0 <= px <= cfg.span_x()
    &&& 0 <= py <= cfg.span_y()
    &&& -cfg.max_v <= v <= 0
}

/// Computes one particle's move for one tick on `grid`, without changing
/// anything.
pub fn plan_move(cfg: &Config, grid: &Grid, behavior: Behavior, v: i64, pos: Position) -> (m: Move)
    requires
        cfg.wf(),
        fits(*cfg, grid@),
        in_bounds(*cfg, v as int, pos.x as int, pos.y as int),
    ensures
        m.is_plan(plan(*cfg, grid@, behavior, v as int, pos.x as int, pos.y as int)),
{
    let sub = cfg.sub;
    proof {
        lemma_spans(*cfg);
        assert(cfg.span_x() <= 0x100_0000_0000) by (nonlinear_arith)
            requires
                cfg.width <= MAX_SIDE,
                cfg.sub <= MAX_SUB,
                0 < cfg.sub,
        ;
        assert(cfg.span_y() <= 0x100_0000_0000) by (nonlinear_arith)
            requires
                cfg.height <= MAX_SIDE,
                cfg.sub <= MAX_SUB,
                0 < cfg.sub,
        ;
    }
    let span_x: i64 = cfg.width as i64 * sub;
    let span_y: i64 = cfg.height as i64 * sub;
    proof {
        assert(0 < span_x) by (nonlinear_arith)
            requires
                span_x == cfg.width * sub,
                0 < cfg.width,
                0 < sub,
        ;
        assert(0 < span_y) by (nonlinear_arith)
            requires
                span_y == cfg.height * sub,
                0 < cfg.height,
                0 < sub,
        ;
    }
    let sx = cell_of_position(pos.x, sub);
    let sy = cell_of_position(pos.y, sub);
    let mut v1: i64 = v - cfg.gravity;
    if v1 < -cfg.max_v {
        v1 = -cfg.max_v;
    } else if v1 > cfg.max_v {
        v1 = cfg.max_v;
    }
    let py1: i64 = pos.y + v1;
    let ty = cell_of_position(py1, sub);
    proof {
        lemma_cell_of_bounds(pos.x as int, sub as int, cfg.width as int);
        lemma_cell_of_bounds(pos.y as int, sub as int, cfg.height as int);
        lemma_cell_of_monotone(-span_y as int, py1 as int, sub as int);
        lemma_cell_of_monotone(py1 as int, pos.y as int, sub as int);
        lemma_cell_of_exact(-(cfg.height as int), sub as int);
        assert(-span_y == (-(cfg.height as int)) * sub) by (nonlinear_arith)
            requires
                span_y == cfg.height * sub,
        ;
    }
    match find_obstacle(grid, sx, ty, sy) {
        None => Move {
            source_x: sx,
            source_y: sy,
            dest_x: sx,
            dest_y: ty,
            v: v1,
            position: Position {
                x: wrap_position(pos.x, span_x),
                y: wrap_position(py1, span_y),
            },
        },
        Some(oy) => {
            proof {
                lemma_first_obstacle(grid@, sx as int, ty as int, sy as int);
            }
            let cx = sx;
            let cy = oy + 1;
            let (dx, dy, nv) = if grid.get((cx - 1) as i32, (cy - 1) as i32).is_none() {
                (cx - 1, cy - 1, v1)
            } else if grid.get((cx + 1) as i32, (cy - 1) as i32).is_none() {
                (cx + 1, cy - 1, v1)
            } else if behavior == Behavior::Liquid {
                if grid.get((cx - 1) as i32, cy as i32).is_none() {
                    (cx - 1, cy, 0)
                } else if grid.get((cx + 1) as i32, cy as i32).is_none() {
                    (cx + 1, cy, 0)
                } else {
                    (cx, cy, 0)
                }
            } else {
                (cx, cy, 0)
            };
            let (wx, wy) = grid.wrap_xy(dx as i32, dy as i32);
            proof {
                assert(wx * sub <= span_x) by (nonlinear_arith)
                    requires
                        wx < cfg.width,
                        span_x == cfg.width * sub,
                        0 < sub,
                ;
                assert(wy * sub <= span_y) by (nonlinear_arith)
                    requires
                        wy < cfg.height,
                        span_y == cfg.height * sub,
                        0 < sub,
                ;
            }
            Move {
                source_x: sx,
                source_y: sy,
                dest_x: dx,
                dest_y: dy,
                v: nv,
                position: Position { x: wx as i64 * sub, y: wy as i64 * sub },
            }
        },
    }
}


proof fn lemma_wrap_shift(y: int, n: int)
    requires
        0 < n,
    ensures
        crate::util::wrap_spec(y + n, 0, n) == crate::util::wrap_spec(y, 0, n),
        crate::util::wrap_spec(y - n, 0, n) == crate::util::wrap_spec(y, 0, n),
{
    vstd::arithmetic::div_mod::lemma_mod_multiples_vanish(1, y, n);
    vstd::arithmetic::div_mod::lemma_mod_multiples_vanish(-1, y, n);
}

/// Where a move lands: a cell that was empty, or the cell the particle
/// left. Its new state stays in bounds, and its continuous position names
/// the landing cell.
pub proof fn lemma_plan_lands(cfg: Config, g: GridView, b: Behavior, v: int, px: int, py: int)
    requires
        cfg.wf(),
        fits(cfg, g),
        in_bounds(cfg, v, px, py),
    ensures
        ({
            let p = plan(cfg, g, b, v, px, py);
            &&& p.sx == cell_of(px, cfg.sub as int)
            &&& p.sy == cell_of(py, cfg.sub as int)
            &&& in_bounds(cfg, p.v, p.px, p.py)
            &&& g.wrap_x(cell_of(p.px, cfg.sub as int)) == g.wrap_x(p.dx)
            &&& g.wrap_y(cell_of(p.py, cfg.sub as int)) == g.wrap_y(p.dy)
            &&& g.same_cell(p.dx, p.dy, p.sx, p.sy) || !occupied(g, p.dx, p.dy)
            &&& 0 <= p.sx <= cfg.width
            &&& 0 <= p.sy <= cfg.height
            &&& -0x20_0000 <= p.dx <= 0x20_0000
            &&& -0x20_0000 <= p.dy <= 0x20_0000
            &&& p.sy - cfg.height < cell_of(py + integrate(v, cfg), cfg.sub as int) <= p.sy
        }),
{
    let sub = cfg.sub as int;
    let p = plan(cfg, g, b, v, px, py);
    let sx = cell_of(px, sub);
    let sy = cell_of(py, sub);
    let v1 = integrate(v, cfg);
    let py1 = py + v1;
    let ty = cell_of(py1, sub);
    lemma_cell_of_monotone(py1, py, sub);
    lemma_first_obstacle(g, sx, ty, sy);
    lemma_spans(cfg);
    lemma_cell_of_bounds(px, sub, cfg.width as int);
    lemma_cell_of_bounds(py, sub, cfg.height as int);
    lemma_cell_of_monotone(-cfg.span_y(), py1, sub);
    lemma_cell_of_exact(-(cfg.height as int), sub);
    assert(-cfg.span_y() == (-(cfg.height as int)) * sub) by (nonlinear_arith)
        requires
            cfg.span_y() == cfg.height * sub,
    ;
    lemma_cell_of_shift(py, sub, -(cfg.height - 1));
    assert(py + (-(cfg.height - 1)) * sub <= py1) by (nonlinear_arith)
        requires
            py1 == py + v1,
            v1 >= -cfg.max_v,
            cfg.max_v <= (cfg.height - 1) * sub,
    ;
    lemma_cell_of_monotone(py + (-(cfg.height - 1)) * sub, py1, sub);
    match first_obstacle(g, sx, ty, sy) {
        None => {
            if py1 < 0 {
                lemma_cell_of_shift(py1, sub, cfg.height as int);
                lemma_wrap_shift(ty, cfg.height as int);
            }
        },
        Some(oy) => {
            let (dx, dy, nv) = deflect(g, b, sx, oy + 1, v1);
            lemma_cell_of_exact(g.wrap_x(dx), sub);
            lemma_cell_of_exact(g.wrap_y(dy), sub);
            let wx = g.wrap_x(dx);
            let wy = g.wrap_y(dy);
            vstd::arithmetic::div_mod::lemma_small_mod(wx as nat, g.xsize as nat);
            vstd::arithmetic::div_mod::lemma_small_mod(wy as nat, g.ysize as nat);
            assert(0 <= wx * sub <= cfg.span_x()) by (nonlinear_arith)
                requires
                    0 <= wx < cfg.width,
                    0 < sub,
                    cfg.span_x() == cfg.width * sub,
            ;
            assert(0 <= wy * sub <= cfg.span_y()) by (nonlinear_arith)
                requires
                    0 <= wy < cfg.height,
                    0 < sub,
                    cfg.span_y() == cfg.height * sub,
            ;
        },
    }
}


/// The field's extent in sub-cell units is positive and far inside `i64`.
pub proof fn lemma_spans(cfg: Config)
    requires
        cfg.wf(),
    ensures
        0 < cfg.span_x() <= 0x100_0000_0000,
        0 < cfg.span_y() <= 0x100_0000_0000,
        cfg.max_v <= cfg.span_y() - cfg.sub,
{
    assert((cfg.height - 1) * cfg.sub == cfg.span_y() - cfg.sub) by (nonlinear_arith)
        requires
            cfg.span_y() == cfg.height * cfg.sub,
    ;
    assert(0 < cfg.span_x() <= 0x100_0000_0000) by (nonlinear_arith)
        requires
            0 < cfg.width <= MAX_SIDE,
            0 < cfg.sub <= MAX_SUB,
    ;
    assert(0 < cfg.span_y() <= 0x100_0000_0000) by (nonlinear_arith)
        requires
            0 < cfg.height <= MAX_SIDE,
            0 < cfg.sub <= MAX_SUB,
    ;
}


/// A particle with nothing below it in its path falls freely: its speed
/// grows by gravity up to the limit and never shrinks, and while it is
/// pulled down at all its continuous height drops (before the position
/// wraps across the field's bottom edge).
pub proof fn lemma_free_fall(cfg: Config, g: GridView, b: Behavior, v: int, px: int, py: int)
    requires
        cfg.wf(),
        fits(cfg, g),
        in_bounds(cfg, v, px, py),
        first_obstacle(
            g,
            cell_of(px, cfg.sub as int),
            cell_of(py + integrate(v, cfg), cfg.sub as int),
            cell_of(py, cfg.sub as int),
        ) is None,
    ensures
        ({
            let p = plan(cfg, g, b, v, px, py);
            &&& p.v == (if v - cfg.gravity < -cfg.max_v {
                -cfg.max_v as int
            } else {
                v - cfg.gravity
            })
            &&& p.v <= v <= 0
            &&& (cfg.gravity > 0 && cfg.max_v > 0 ==> p.v < 0)
            &&& p.v < 0 ==> py + p.v < py
            &&& p.py == wrap_position_spec(py + p.v, cfg.span_y())
            &&& p.dx == p.sx
            &&& p.dy == cell_of(py + p.v, cfg.sub as int)
        }),
{
}

/// A solid particle whose path down reaches a row that is occupied below
/// it and on both diagonals comes to rest in its own cell: its velocity is
/// zeroed and it does not enter the row.
pub proof fn lemma_collision_halts(cfg: Config, g: GridView, v: int, px: int, py: int)
    requires
        cfg.wf(),
        fits(cfg, g),
        in_bounds(cfg, v, px, py),
        ({
            let (sx, sy) = (cell_of(px, cfg.sub as int), cell_of(py, cfg.sub as int));
            &&& occupied(g, sx - 1, sy - 1)
            &&& occupied(g, sx, sy - 1)
            &&& occupied(g, sx + 1, sy - 1)
            &&& cell_of(py + integrate(v, cfg), cfg.sub as int) < sy
        }),
    ensures
        ({
            let p = plan(cfg, g, Behavior::Solid, v, px, py);
            &&& p.v == 0
            &&& p.dx == p.sx
            &&& p.dy == p.sy
        }),
{
}

/// A liquid particle whose path down is blocked below it and on both
/// diagonals flows sideways: into the empty cell on its left, else into the
/// empty cell on its right, with its velocity zeroed.
pub proof fn lemma_liquid_spreads(cfg: Config, g: GridView, v: int, px: int, py: int)
    requires
        cfg.wf(),
        fits(cfg, g),
        in_bounds(cfg, v, px, py),
        ({
            let (sx, sy) = (cell_of(px, cfg.sub as int), cell_of(py, cfg.sub as int));
            &&& occupied(g, sx - 1, sy - 1)
            &&& occupied(g, sx, sy - 1)
            &&& occupied(g, sx + 1, sy - 1)
            &&& cell_of(py + integrate(v, cfg), cfg.sub as int) < sy
            &&& (!occupied(g, sx - 1, sy) || !occupied(g, sx + 1, sy))
        }),
    ensures
        ({
            let p = plan(cfg, g, Behavior::Liquid, v, px, py);
            let (sx, sy) = (cell_of(px, cfg.sub as int), cell_of(py, cfg.sub as int));
            &&& p.v == 0
            &&& p.dy == p.sy
            &&& p.dx == (if !occupied(g, sx - 1, sy) {
                sx - 1
            } else {
                sx + 1
            })
        }),
{
}

} // verus!
