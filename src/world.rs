//! A simulation: the grid together with the particle store it indexes, the
//! requests that place and erase particles, and the tick.
use vstd::prelude::*;
use crate::grid::{lemma_put_frame, lemma_wrap_in_range, Grid, GridView, Handle, Rgba};
use crate::physics::{
    cell_of, first_obstacle, fits, in_bounds, integrate, lemma_first_obstacle, lemma_plan_lands,
    lemma_spans, occupied, plan, plan_move, wrap_position_spec, Behavior, Config, Particle, Position,
    MAX_SIDE,
};

verus! {

/// What the store keeps of a live particle.
#[derive(Clone, Copy, PartialEq, Eq, Structural, Debug)]
pub struct Record {
    pub particle: Particle,
    pub position: Position,
    pub color: Rgba,
}

/// One place in the particle store: the generation a handle must carry to
/// name it, and the particle living there, if any.
#[derive(Clone, Copy, PartialEq, Eq, Structural, Debug)]
pub struct Slot {
    pub generation: u32,
    pub record: Option<Record>,
}

/// The mathematical state of a simulation.
pub struct WorldView {
    pub config: Config,
    pub grid: GridView,
    pub slots: Seq<Slot>,
}

impl WorldView {
    /// The handle that names slot `i`.
    pub open spec fn handle(self, i: int) -> Handle {
        Handle { index: i as usize, generation: self.slots[i].generation }
    }

    /// `h` names a live particle.
    pub open spec fn live(self, h: Handle) -> bool {
        &&& h.index < self.slots.len()
        &&& self.slots[h.index as int].generation == h.generation
        &&& self.slots[h.index as int].record is Some
    }

    pub open spec fn record(self, h: Handle) -> Record {
        self.slots[h.index as int].record->Some_0
    }

    /// The normalized cell that a particle's continuous position names.
    pub open spec fn key_x(self, r: Record) -> int {
        self.grid.wrap_x(cell_of(r.position.x as int, self.config.sub as int))
    }

    pub open spec fn key_y(self, r: Record) -> int {
        self.grid.wrap_y(cell_of(r.position.y as int, self.config.sub as int))
    }

    /// A live particle in slot `i` keeps a state in bounds, and the grid
    /// holds its handle at the cell its position names.
    pub open spec fn placed(self, i: int) -> bool {
        match self.slots[i].record {
            None => true,
            Some(r) => {
                &&& in_bounds(self.config, r.particle.v as int, r.position.x as int, r.position.y as int)
                &&& self.grid.cell(self.key_x(r), self.key_y(r)) == Some(self.handle(i))
            },
        }
    }

    /// An empty cell shows the background; an occupied one holds the handle
    /// of a live particle whose position names that cell, and shows its color.
    pub open spec fn consistent(self, x: int, y: int) -> bool {
        match self.grid.cell(x, y) {
            None => self.grid.pixel(x, y) == self.config.background,
            Some(h) => {
                &&& self.live(h)
                &&& self.key_x(self.record(h)) == x
                &&& self.key_y(self.record(h)) == y
                &&& self.grid.pixel(x, y) == self.record(h).color
            },
        }
    }

    pub open spec fn wf(self) -> bool {
        &&& self.config.wf()
        &&& fits(self.config, self.grid)
        &&& self.slots.len() <= usize::MAX
        &&& forall|i: int| 0 <= i < self.slots.len() ==> #[trigger] self.placed(i)
        &&& forall|x: int, y: int| self.grid.in_range(x, y) ==> #[trigger] self.consistent(x, y)
    }

    /// The particle in slot `i` takes its move for this tick: the grid loses
    /// it at the cell it leaves and gains it, with its color, where it lands.
    /// Empty slots and static particles stay as they are.
    pub open spec fn step_slot(self, i: int) -> WorldView {
        match self.slots[i].record {
            None => self,
            Some(r) => {
                if r.particle.behavior == Behavior::Static {
                    self
                } else {
                    let p = plan(
                        self.config,
                        self.grid,
                        r.particle.behavior,
                        r.particle.v as int,
                        r.position.x as int,
                        r.position.y as int,
                    );
                    let moved = Record {
                        particle: Particle { behavior: r.particle.behavior, v: p.v as i64 },
                        position: Position { x: p.px as i64, y: p.py as i64 },
                        color: r.color,
                    };
                    WorldView {
                        config: self.config,
                        grid: self.grid.remove(p.sx, p.sy).set(p.dx, p.dy, self.handle(i), r.color),
                        slots: self.slots.update(
                            i,
                            Slot { generation: self.slots[i].generation, record: Some(moved) },
                        ),
                    }
                }
            },
        }
    }

    /// Slots `i` to `n - 1` take their moves, in ascending order.
    pub open spec fn tick_range(self, i: int, n: int) -> WorldView
        decreases n - i,
    {
        if i >= n {
            self
        } else {
            self.step_slot(i).tick_range(i + 1, n)
        }
    }

    /// The record a spawn request creates: at rest, centred on the wrapped
    /// cell.
    pub open spec fn fresh_record(self, x: int, y: int, b: Behavior, c: Rgba) -> Record {
        Record {
            particle: Particle { behavior: b, v: 0 },
            position: Position {
                x: (self.grid.wrap_x(x) * self.config.sub) as i64,
                y: (self.grid.wrap_y(y) * self.config.sub) as i64,
            },
            color: c,
        }
    }

    /// `next` is `self` with a new particle `h` placed at `(x, y)`: its slot
    /// held no particle before, and no other slot changed.
    pub open spec fn spawned(self, next: WorldView, h: Handle, x: int, y: int, b: Behavior, c: Rgba) -> bool {
        &&& next.config == self.config
        &&& next.grid == self.grid.set(x, y, h, c)
        &&& h.index <= self.slots.len()
        &&& (h.index < self.slots.len() ==> self.slots[h.index as int].record is None)
        &&& next.slots.len() == if h.index < self.slots.len() {
            self.slots.len()
        } else {
            self.slots.len() + 1
        }
        &&& next.live(h)
        &&& next.record(h) == self.fresh_record(x, y, b, c)
        &&& forall|j: int|
            0 <= j < self.slots.len() && j != h.index ==> #[trigger] next.slots[j] == self.slots[j]
    }

    /// One tick: every slot takes its move once, in ascending slot order.
    pub open spec fn tick(self) -> WorldView {
        self.tick_range(0, self.slots.len() as int)
    }
}

/// A move keeps the simulation consistent: no cell holds two particles, each
/// live particle sits where its position says, and every cell shows the
/// color of its occupant or the background.
pub proof fn lemma_step_slot_wf(w: WorldView, i: int)
    requires
        w.wf(),
        0 <= i < w.slots.len(),
    ensures
        w.step_slot(i).wf(),
        w.step_slot(i).slots.len() == w.slots.len(),
{
    match w.slots[i].record {
        None => {},
        Some(r) => {
            if r.particle.behavior != Behavior::Static {
                let cfg = w.config;
                let g = w.grid;
                let p = plan(
                    cfg,
                    g,
                    r.particle.behavior,
                    r.particle.v as int,
                    r.position.x as int,
                    r.position.y as int,
                );
                assert(w.placed(i));
                lemma_plan_lands(
                    cfg,
                    g,
                    r.particle.behavior,
                    r.particle.v as int,
                    r.position.x as int,
                    r.position.y as int,
                );
                let h = w.handle(i);
                let (sx, sy) = (g.wrap_x(p.sx), g.wrap_y(p.sy));
                let (dx, dy) = (g.wrap_x(p.dx), g.wrap_y(p.dy));
                lemma_wrap_in_range(g, p.sx, p.sy);
                lemma_wrap_in_range(g, p.dx, p.dy);
                let g1 = g.remove(p.sx, p.sy);
                let g2 = g1.set(p.dx, p.dy, h, r.color);
                let w2 = w.step_slot(i);
                assert(w2.grid == g2);
                lemma_put_frame(g, sx, sy, None, g.background, dx, dy);
                lemma_put_frame(g1, dx, dy, Some(h), r.color, sx, sy);
                lemma_put_frame(g1, dx, dy, Some(h), r.color, dx, dy);
                assert(g.cell(sx, sy) == Some(h));
                assert(g.cell(dx, dy) is None || (dx == sx && dy == sy));
                lemma_spans(cfg);
                let moved = w2.slots[i].record->Some_0;
                assert(moved.position.x as int == p.px);
                assert(moved.position.y as int == p.py);
                assert(moved.particle.v as int == p.v);
                assert(w2.key_x(moved) == dx);
                assert(w2.key_y(moved) == dy);
                assert(w2.handle(i) == h);
                assert(w2.grid.cell(dx, dy) == Some(h));
                assert(w2.placed(i));
                assert forall|j: int| 0 <= j < w2.slots.len() implies #[trigger] w2.placed(j) by {
                    if j != i {
                        assert(w.placed(j));
                        if let Some(rj) = w.slots[j].record {
                            let (kx, ky) = (w.key_x(rj), w.key_y(rj));
                            lemma_wrap_in_range(g, cell_of(rj.position.x as int, cfg.sub as int), cell_of(rj.position.y as int, cfg.sub as int));
                            assert(w.handle(j) != h);
                            lemma_put_frame(g, sx, sy, None, g.background, kx, ky);
                            lemma_put_frame(g1, dx, dy, Some(h), r.color, kx, ky);
                            assert(w2.key_x(rj) == kx);
                        }
                    }
                }
                assert forall|x: int, y: int| w2.grid.in_range(x, y) implies #[trigger] w2.consistent(x, y) by {
                    assert(w.consistent(x, y));
                    lemma_put_frame(g, sx, sy, None, g.background, x, y);
                    lemma_put_frame(g1, dx, dy, Some(h), r.color, x, y);
                    if !(x == dx && y == dy) && !(x == sx && y == sy) {
                        if let Some(hh) = g.cell(x, y) {
                            assert(hh.index as int != i);
                        }
                    }
                }
            }
        },
    }
}


/// A run of moves keeps the simulation consistent.
pub proof fn lemma_tick_range_wf(w: WorldView, i: int, n: int)
    requires
        w.wf(),
        0 <= i,
        n <= w.slots.len(),
    ensures
        w.tick_range(i, n).wf(),
        w.tick_range(i, n).slots.len() == w.slots.len(),
    decreases n - i,
{
    if i < n {
        lemma_step_slot_wf(w, i);
        lemma_tick_range_wf(w.step_slot(i), i + 1, n);
    }
}

/// A simulation: the configuration, the occupancy grid, and the store of
/// particles that the grid's handles name.
pub struct World {
    config: Config,
    grid: Grid,
    slots: Vec<Slot>,
    free: Vec<usize>,
}

impl View for World {
    type V = WorldView;

    closed spec fn view(&self) -> WorldView {
        WorldView { config: self.config, grid: self.grid@, slots: self.slots@ }
    }
}

impl World {
    /// An empty field under `config`.
    pub fn new(config: Config) -> (w: World)
        requires
            config.wf(),
        ensures
            w@.wf(),
            w@.config == config,
            w@.slots.len() == 0,
            forall|x: int, y: int| w@.grid.in_range(x, y) ==> w@.grid.cell(x, y) is None,
    {
        let grid = Grid::new(config.width, config.height, config.background);
        let w = World { config, grid, slots: Vec::new(), free: Vec::new() };
        proof {
            assert forall|x: int, y: int| w@.grid.in_range(x, y) implies #[trigger] w@.consistent(
                x,
                y,
            ) by {
                crate::grid::lemma_layout(w@.grid, x, y, x, y);
                assert(w@.grid.cell(x, y) is None);
                let o = w@.grid.offset(x, y);
                assert(o % 4 == 0);
                assert((o + 1) % 4 == 1 && (o + 2) % 4 == 2 && (o + 3) % 4 == 3) by {
                    vstd::arithmetic::div_mod::lemma_fundamental_div_mod(o, 4);
                    vstd::arithmetic::div_mod::lemma_fundamental_div_mod_converse(o + 1, 4, o / 4, 1);
                    vstd::arithmetic::div_mod::lemma_fundamental_div_mod_converse(o + 2, 4, o / 4, 2);
                    vstd::arithmetic::div_mod::lemma_fundamental_div_mod_converse(o + 3, 4, o / 4, 3);
                }
            }
            assert forall|x: int, y: int| w@.grid.in_range(x, y) implies w@.grid.cell(x, y) is None by {
                crate::grid::lemma_layout(w@.grid, x, y, x, y);
            }
        }
        w
    }

    pub fn config(&self) -> (r: Config)
        ensures
            r == self@.config,
    {
        self.config
    }

    pub fn grid(&self) -> (r: &Grid)
        ensures
            r@ == self@.grid,
    {
        &self.grid
    }

    /// The RGBA buffer: row-major, vertically flipped, four bytes per cell.
    pub fn read_color_buffer(&self) -> (r: &[u8])
        ensures
            r@ == self@.grid.texture,
    {
        self.grid.read_color_buffer()
    }

    /// The particle a handle names, if it is live.
    pub fn particle(&self, h: Handle) -> (r: Option<Record>)
        ensures
            r == (if self@.live(h) {
                Some(self@.record(h))
            } else {
                None
            }),
    {
        if h.index < self.slots.len() && self.slots[h.index].generation == h.generation {
            self.slots[h.index].record
        } else {
            None
        }
    }
}


impl World {
    /// Finds a slot for a new particle: a freed one under a new generation,
    /// else a new one at the end.
    fn allocate(&mut self) -> (h: Handle)
        requires
            old(self)@.wf(),
        ensures
            final(self)@.wf(),
            final(self)@.config == old(self)@.config,
            final(self)@.grid == old(self)@.grid,
            h.index <= old(self)@.slots.len(),
            h.index < old(self)@.slots.len() ==> old(self)@.slots[h.index as int].record is None,
            final(self)@.slots.len() == if h.index < old(self)@.slots.len() {
                old(self)@.slots.len()
            } else {
                old(self)@.slots.len() + 1
            },
            final(self)@.slots[h.index as int] == (Slot { generation: h.generation, record: None }),
            forall|j: int|
                0 <= j < old(self)@.slots.len() && j != h.index ==> #[trigger] final(self)@.slots[j]
                    == old(self)@.slots[j],
    {
        let ghost w0 = self@;
        if let Some(k) = self.free.pop() {
            if k < self.slots.len() && self.slots[k].record.is_none() && self.slots[k].generation
                < u32::MAX {
                let generation = self.slots[k].generation + 1;
                self.slots.set(k, Slot { generation, record: None });
                proof {
                    assert forall|j: int| 0 <= j < self@.slots.len() implies #[trigger] self@.placed(j) by {
                        assert(w0.placed(j));
                    }
                    assert forall|x: int, y: int| self@.grid.in_range(x, y) implies #[trigger] self@.consistent(x, y) by {
                        assert(w0.consistent(x, y));
                    }
                }
                return Handle { index: k, generation };
            }
        }
        let k = self.slots.len();
        self.slots.push(Slot { generation: 0, record: None });
        proof {
            assert(self.slots@.len() == self.slots.len());
        }
        proof {
            assert forall|j: int| 0 <= j < self@.slots.len() implies #[trigger] self@.placed(j) by {
                if j < k {
                    assert(w0.placed(j));
                }
            }
            assert forall|x: int, y: int| self@.grid.in_range(x, y) implies #[trigger] self@.consistent(x, y) by {
                assert(w0.consistent(x, y));
            }
        }
        Handle { index: k, generation: 0 }
    }

    /// Places a new particle at rest at `(x, y)` if that cell is empty; a
    /// request for an occupied cell changes nothing. Returns whether it
    /// placed one.
    pub fn spawn(&mut self, x: i32, y: i32, behavior: Behavior, color: Rgba) -> (r: bool)
        requires
            old(self)@.wf(),
        ensures
            final(self)@.wf(),
            r == (old(self)@.grid.get(x as int, y as int) is None),
            !r ==> final(self)@ == old(self)@,
            r ==> old(self)@.spawned(
                final(self)@,
                final(self)@.grid.get(x as int, y as int)->Some_0,
                x as int,
                y as int,
                behavior,
                color,
            ),
    {
        if self.grid.get(x, y).is_some() {
            return false;
        }
        let ghost w0 = self@;
        let (wx, wy) = self.grid.wrap_xy(x, y);
        let h = self.allocate();
        let ghost w1 = self@;
        let sub = self.config.sub;
        proof {
            lemma_spans(self.config);
            assert(wx * sub <= self.config.span_x()) by (nonlinear_arith)
                requires
                    wx < self.config.width,
                    0 < sub,
                    self.config.span_x() == self.config.width * sub,
            ;
            assert(wy * sub <= self.config.span_y()) by (nonlinear_arith)
                requires
                    wy < self.config.height,
                    0 < sub,
                    self.config.span_y() == self.config.height * sub,
            ;
        }
        let rec = Record {
            particle: Particle { behavior, v: 0 },
            position: Position { x: wx as i64 * sub, y: wy as i64 * sub },
            color,
        };
        self.slots.set(h.index, Slot { generation: h.generation, record: Some(rec) });
        self.grid.set(x, y, h, color);
        proof {
            let w2 = self@;
            let g = w1.grid;
            lemma_wrap_in_range(g, x as int, y as int);
            crate::physics::lemma_cell_of_exact(wx as int, sub as int);
            crate::physics::lemma_cell_of_exact(wy as int, sub as int);
            vstd::arithmetic::div_mod::lemma_small_mod(wx as nat, g.xsize as nat);
            vstd::arithmetic::div_mod::lemma_small_mod(wy as nat, g.ysize as nat);
            lemma_put_frame(g, wx as int, wy as int, Some(h), color, wx as int, wy as int);
            assert(w2.key_x(rec) == wx);
            assert(w2.key_y(rec) == wy);
            assert(g.cell(wx as int, wy as int) is None);
            assert forall|j: int| 0 <= j < w2.slots.len() implies #[trigger] w2.placed(j) by {
                assert(w1.placed(j));
                if j != h.index {
                    if let Some(rj) = w1.slots[j].record {
                        lemma_wrap_in_range(
                            g,
                            cell_of(rj.position.x as int, sub as int),
                            cell_of(rj.position.y as int, sub as int),
                        );
                        lemma_put_frame(g, wx as int, wy as int, Some(h), color, w1.key_x(rj), w1.key_y(rj));
                    }
                }
            }
            assert forall|xx: int, yy: int| w2.grid.in_range(xx, yy) implies #[trigger] w2.consistent(xx, yy) by {
                assert(w1.consistent(xx, yy));
                lemma_put_frame(g, wx as int, wy as int, Some(h), color, xx, yy);
            }
            assert(w0.spawned(w2, h, x as int, y as int, behavior, color));
        }
        true
    }

    /// Removes the particle at `(x, y)`, if any, from the grid and the store,
    /// painting the cell the background color. Returns its handle.
    pub fn erase(&mut self, x: i32, y: i32) -> (r: Option<Handle>)
        requires
            old(self)@.wf(),
        ensures
            final(self)@.wf(),
            r == old(self)@.grid.get(x as int, y as int),
            final(self)@.config == old(self)@.config,
            final(self)@.grid == old(self)@.grid.remove(x as int, y as int),
            final(self)@.slots == match r {
                None => old(self)@.slots,
                Some(h) => old(self)@.slots.update(
                    h.index as int,
                    Slot { generation: h.generation, record: None },
                ),
            },
    {
        let ghost w0 = self@;
        let ghost (wx, wy) = (w0.grid.wrap_x(x as int), w0.grid.wrap_y(y as int));
        proof {
            lemma_wrap_in_range(w0.grid, x as int, y as int);
            assert(w0.consistent(wx, wy));
        }
        let r = self.grid.remove(x, y);
        if let Some(h) = r {
            self.slots.set(h.index, Slot { generation: h.generation, record: None });
            self.free.push(h.index);
        }
        proof {
            let w2 = self@;
            let g = w0.grid;
            let sub = w0.config.sub;
            assert forall|j: int| 0 <= j < w2.slots.len() implies #[trigger] w2.placed(j) by {
                assert(w0.placed(j));
                if let Some(rj) = w2.slots[j].record {
                    lemma_wrap_in_range(
                        g,
                        cell_of(rj.position.x as int, sub as int),
                        cell_of(rj.position.y as int, sub as int),
                    );
                    lemma_put_frame(g, wx, wy, None, g.background, w0.key_x(rj), w0.key_y(rj));
                }
            }
            assert forall|xx: int, yy: int| w2.grid.in_range(xx, yy) implies #[trigger] w2.consistent(xx, yy) by {
                assert(w0.consistent(xx, yy));
                lemma_put_frame(g, wx, wy, None, g.background, xx, yy);
            }
        }
        r
    }

    /// The particle in slot `i` takes its move for this tick.
    fn step_slot(&mut self, i: usize)
        requires
            old(self)@.wf(),
            i < old(self)@.slots.len(),
        ensures
            final(self)@ == old(self)@.step_slot(i as int),
            final(self)@.wf(),
    {
        proof {
            lemma_step_slot_wf(self@, i as int);
        }
        let slot = self.slots[i];
        if let Some(rec) = slot.record {
            if rec.particle.behavior != Behavior::Static {
                proof {
                    assert(self@.placed(i as int));
                    lemma_plan_lands(
                        self.config,
                        self.grid@,
                        rec.particle.behavior,
                        rec.particle.v as int,
                        rec.position.x as int,
                        rec.position.y as int,
                    );
                }
                let m = plan_move(
                    &self.config,
                    &self.grid,
                    rec.particle.behavior,
                    rec.particle.v,
                    rec.position,
                );
                self.grid.remove(m.source_x as i32, m.source_y as i32);
                self.grid.set(
                    m.dest_x as i32,
                    m.dest_y as i32,
                    Handle { index: i, generation: slot.generation },
                    rec.color,
                );
                let moved = Record {
                    particle: Particle { behavior: rec.particle.behavior, v: m.v },
                    position: m.position,
                    color: rec.color,
                };
                self.slots.set(i, Slot { generation: slot.generation, record: Some(moved) });
            }
        }
    }
}

/// Advances the simulation by one tick: every moving particle, in ascending
/// slot order, falls under gravity, stops above the first obstacle in its
/// column, slips or flows aside when it can, and is moved in the grid. Each
/// particle moves at most once per tick.
pub fn grid_update(world: &mut World)
    requires
        old(world)@.wf(),
    ensures
        final(world)@ == old(world)@.tick(),
        final(world)@.wf(),
{
    let n = world.slots.len();
    let mut i: usize = 0;
    while i < n
        invariant
            0 <= i <= n,
            n == world@.slots.len(),
            n == old(world)@.slots.len(),
            world@.wf(),
            world@.tick_range(i as int, n as int) == old(world)@.tick(),
        decreases n - i,
    {
        world.step_slot(i);
        i = i + 1;
    }
}


/// No cell holds more than one particle and no particle sits in two cells:
/// two distinct cells never hold the same handle. Every occupied cell
/// names a live particle and shows that particle's color; every empty cell
/// shows the background.
pub proof fn lemma_occupancy_exclusive(w: WorldView)
    requires
        w.wf(),
    ensures
        forall|x1: int, y1: int, x2: int, y2: int|
            w.grid.in_range(x1, y1) && w.grid.in_range(x2, y2) && (x1 != x2 || y1 != y2)
                && w.grid.cell(x1, y1) is Some ==> #[trigger] w.grid.cell(x1, y1) != #[trigger] w.grid.cell(
                x2,
                y2,
            ),
        forall|x: int, y: int|
            w.grid.in_range(x, y) ==> match #[trigger] w.grid.cell(x, y) {
                None => w.grid.pixel(x, y) == w.config.background,
                Some(h) => w.live(h) && w.grid.pixel(x, y) == w.record(h).color,
            },
{
    assert forall|x1: int, y1: int, x2: int, y2: int|
        w.grid.in_range(x1, y1) && w.grid.in_range(x2, y2) && (x1 != x2 || y1 != y2)
            && w.grid.cell(x1, y1) is Some implies #[trigger] w.grid.cell(x1, y1) != #[trigger] w.grid.cell(
            x2,
            y2,
        ) by {
        assert(w.consistent(x1, y1));
        assert(w.consistent(x2, y2));
    }
    assert forall|x: int, y: int| w.grid.in_range(x, y) implies match #[trigger] w.grid.cell(x, y) {
        None => w.grid.pixel(x, y) == w.config.background,
        Some(h) => w.live(h) && w.grid.pixel(x, y) == w.record(h).color,
    } by {
        assert(w.consistent(x, y));
    }
}

/// A tick keeps the simulation consistent.
pub proof fn lemma_tick_wf(w: WorldView)
    requires
        w.wf(),
    ensures
        w.tick().wf(),
        w.tick().slots.len() == w.slots.len(),
{
    lemma_tick_range_wf(w, 0, w.slots.len() as int);
}

impl Default for World {
    /// An empty field under the default configuration.
    fn default() -> (w: Self)
        ensures
            w@.wf(),
            w@.slots.len() == 0,
            forall|x: int, y: int| w@.grid.in_range(x, y) ==> w@.grid.cell(x, y) is None,
    {
        World::new(Config::default())
    }
}


/// Slot `i` of `after` holds the same particle as in `before`: the same
/// generation, the same behavior and color (the whole record, for a static
/// particle), or still no particle.
pub open spec fn kept(before: WorldView, after: WorldView, i: int) -> bool {
    &&& after.slots[i].generation == before.slots[i].generation
    &&& match before.slots[i].record {
        None => after.slots[i].record is None,
        Some(r) => {
            &&& after.slots[i].record is Some
            &&& after.slots[i].record->Some_0.particle.behavior == r.particle.behavior
            &&& after.slots[i].record->Some_0.color == r.color
            &&& r.particle.behavior == Behavior::Static ==> after.slots[i].record == Some(r)
        },
    }
}

proof fn lemma_tick_range_keeps(w: WorldView, i: int, n: int)
    requires
        0 <= i,
        n <= w.slots.len(),
    ensures
        w.tick_range(i, n).slots.len() == w.slots.len(),
        forall|j: int| 0 <= j < w.slots.len() ==> #[trigger] kept(w, w.tick_range(i, n), j),
    decreases n - i,
{
    if i < n {
        let w1 = w.step_slot(i);
        assert(w1.slots.len() == w.slots.len());
        lemma_tick_range_keeps(w1, i + 1, n);
        assert forall|j: int| 0 <= j < w.slots.len() implies #[trigger] kept(w, w.tick_range(i, n), j) by {
            assert(kept(w1, w1.tick_range(i + 1, n), j));
        }
    }
}

/// A tick neither creates nor destroys particles: every slot keeps its
/// generation, every live particle stays live with its behavior and color,
/// static particles keep their whole record, and empty slots stay empty.
pub proof fn lemma_tick_keeps_particles(w: WorldView)
    ensures
        w.tick().slots.len() == w.slots.len(),
        forall|i: int| 0 <= i < w.slots.len() ==> #[trigger] kept(w, w.tick(), i),
{
    lemma_tick_range_keeps(w, 0, w.slots.len() as int);
}


/// Running slots `a` to `n - 1` is running `a` to `i - 1`, then `i` to
/// `n - 1`.
pub proof fn lemma_tick_split(w: WorldView, a: int, i: int, n: int)
    requires
        a <= i <= n,
    ensures
        w.tick_range(a, n) == w.tick_range(a, i).tick_range(i, n),
    decreases i - a,
{
    if a < i {
        lemma_tick_split(w.step_slot(a), a + 1, i, n);
    }
}

/// Moves of slots `a` to `n - 1` leave every other slot, the configuration
/// and the grid's shape as they were.
pub proof fn lemma_other_steps_keep_slot(w: WorldView, a: int, n: int, i: int)
    requires
        0 <= a,
        n <= w.slots.len(),
        0 <= i < w.slots.len(),
        i < a || n <= i,
    ensures
        w.tick_range(a, n).slots[i] == w.slots[i],
        w.tick_range(a, n).slots.len() == w.slots.len(),
        w.tick_range(a, n).config == w.config,
        w.tick_range(a, n).grid.xsize == w.grid.xsize,
        w.tick_range(a, n).grid.ysize == w.grid.ysize,
    decreases n - a,
{
    if a < n {
        lemma_other_steps_keep_slot(w.step_slot(a), a + 1, n, i);
    }
}

/// The world when slot `i` takes its move during a tick: slots before it
/// have moved, it and the slots after it have not.
pub open spec fn turn(w: WorldView, i: int) -> WorldView {
    w.tick_range(0, i)
}

/// After a tick, slot `i` holds what its own move made of it, computed on
/// the grid as it stood at its turn; a static particle or an empty slot is
/// unchanged. The world at every turn is consistent.
pub proof fn lemma_tick_moves_by_plan(w: WorldView, i: int)
    requires
        w.wf(),
        0 <= i < w.slots.len(),
    ensures
        turn(w, i).wf(),
        turn(w, i).slots.len() == w.slots.len(),
        w.tick().slots.len() == w.slots.len(),
        turn(w, i).slots[i] == w.slots[i],
        turn(w, i).config == w.config,
        w.tick().config == w.config,
        w.tick().slots[i] == turn(w, i).step_slot(i).slots[i],
        w.tick().wf(),
{
    let n = w.slots.len() as int;
    lemma_tick_range_wf(w, 0, i);
    lemma_other_steps_keep_slot(w, 0, i, i);
    lemma_tick_split(w, 0, i, n);
    let t = turn(w, i);
    lemma_step_slot_wf(t, i);
    lemma_other_steps_keep_slot(t.step_slot(i), i + 1, n, i);
    lemma_tick_wf(w);
}

/// Gravity in a tick: a moving particle with nothing below it in its path
/// (on the grid at its turn) speeds up by gravity to the limit and never
/// slows; while pulled down at all, it ends lower than it started, its
/// continuous height wrapping across the bottom edge; its column is kept.
pub proof fn lemma_tick_free_fall(w: WorldView, i: int)
    requires
        w.wf(),
        0 <= i < w.slots.len(),
        w.slots[i].record is Some,
        w.slots[i].record->Some_0.particle.behavior != Behavior::Static,
        ({
            let r = w.slots[i].record->Some_0;
            let sub = w.config.sub as int;
            first_obstacle(
                turn(w, i).grid,
                cell_of(r.position.x as int, sub),
                cell_of(r.position.y + integrate(r.particle.v as int, w.config), sub),
                cell_of(r.position.y as int, sub),
            ) is None
        }),
    ensures
        ({
            let r = w.slots[i].record->Some_0;
            let r2 = w.tick().slots[i].record->Some_0;
            let cfg = w.config;
            &&& w.tick().slots[i].record is Some
            &&& r2.particle.behavior == r.particle.behavior
            &&& r2.particle.v == integrate(r.particle.v as int, cfg)
            &&& r2.particle.v <= r.particle.v <= 0
            &&& (cfg.gravity > 0 && cfg.max_v > 0 ==> r2.particle.v < 0)
            &&& r2.position.x == r.position.x
            &&& r2.position.y == wrap_position_spec(r.position.y + r2.particle.v, cfg.span_y())
        }),
{
    lemma_tick_moves_by_plan(w, i);
    let t = turn(w, i);
    assert(t.placed(i));
    let r = w.slots[i].record->Some_0;
    lemma_plan_lands(
        t.config,
        t.grid,
        r.particle.behavior,
        r.particle.v as int,
        r.position.x as int,
        r.position.y as int,
    );
    lemma_spans(w.config);
}

/// Collision in a tick: a solid particle whose path down reaches a row
/// blocked below it and on both diagonals (on the grid at its turn) stops in
/// its own cell with its velocity zeroed, centred there, and still holds that
/// cell when the tick ends.
pub proof fn lemma_tick_collision_halts(w: WorldView, i: int)
    requires
        w.wf(),
        0 <= i < w.slots.len(),
        w.slots[i].record is Some,
        w.slots[i].record->Some_0.particle.behavior == Behavior::Solid,
        ({
            let r = w.slots[i].record->Some_0;
            let g = turn(w, i).grid;
            let sub = w.config.sub as int;
            let (sx, sy) = (cell_of(r.position.x as int, sub), cell_of(r.position.y as int, sub));
            &&& occupied(g, sx - 1, sy - 1)
            &&& occupied(g, sx, sy - 1)
            &&& occupied(g, sx + 1, sy - 1)
            &&& cell_of(r.position.y + integrate(r.particle.v as int, w.config), sub) < sy
        }),
    ensures
        ({
            let r = w.slots[i].record->Some_0;
            let r2 = w.tick().slots[i].record->Some_0;
            let sub = w.config.sub as int;
            let (sx, sy) = (cell_of(r.position.x as int, sub), cell_of(r.position.y as int, sub));
            let g = w.tick().grid;
            &&& w.tick().slots[i].record is Some
            &&& r2.particle.v == 0
            &&& r2.position.x == g.wrap_x(sx) * sub
            &&& r2.position.y == g.wrap_y(sy) * sub
            &&& g.get(sx, sy) == Some(w.handle(i))
        }),
{
    lemma_tick_moves_by_plan(w, i);
    let t = turn(w, i);
    assert(t.placed(i));
    let r = w.slots[i].record->Some_0;
    lemma_plan_lands(
        t.config,
        t.grid,
        r.particle.behavior,
        r.particle.v as int,
        r.position.x as int,
        r.position.y as int,
    );
    lemma_first_obstacle(
        t.grid,
        cell_of(r.position.x as int, w.config.sub as int),
        cell_of(r.position.y + integrate(r.particle.v as int, w.config), w.config.sub as int),
        cell_of(r.position.y as int, w.config.sub as int),
    );
    let sub = w.config.sub as int;
    let t2 = w.tick();
    let r2 = t2.slots[i].record->Some_0;
    let g2 = t2.grid;
    assert(t2.placed(i));
    assert(t2.handle(i) == w.handle(i));
    let (kx, ky) = (g2.wrap_x(r2.position.x as int), g2.wrap_y(r2.position.y as int));
    let p = plan(t.config, t.grid, r.particle.behavior, r.particle.v as int, r.position.x as int, r.position.y as int);
    crate::grid::lemma_wrap_in_range(g2, p.dx, p.dy);
    crate::physics::lemma_cell_of_exact(g2.wrap_x(p.dx), sub);
    crate::physics::lemma_cell_of_exact(g2.wrap_y(p.dy), sub);
    vstd::arithmetic::div_mod::lemma_small_mod(g2.wrap_x(p.dx) as nat, g2.xsize as nat);
    vstd::arithmetic::div_mod::lemma_small_mod(g2.wrap_y(p.dy) as nat, g2.ysize as nat);
    let sx = cell_of(r.position.x as int, sub);
    let sy = cell_of(r.position.y as int, sub);
    let ty = cell_of(r.position.y + integrate(r.particle.v as int, w.config), sub);
    assert(first_obstacle(t.grid, sx, ty, sy) == Some(sy - 1));
    assert(t.grid.xsize == g2.xsize && t.grid.ysize == g2.ysize);
    assert(p.px == g2.wrap_x(p.dx) * sub);
    assert(p.py == g2.wrap_y(p.dy) * sub);
    lemma_spans(w.config);
    assert(r2.position.x as int == p.px);
    assert(r2.position.y as int == p.py);
    assert(t2.key_x(r2) == g2.wrap_x(p.dx));
    assert(t2.key_y(r2) == g2.wrap_y(p.dy));
}

/// Liquid flow in a tick: a liquid particle whose path down reaches a row
/// blocked below it and on both diagonals (on the grid at its turn), with
/// an empty cell beside it, steps sideways into it (left first) with its
/// velocity zeroed, and holds that cell when the tick ends.
pub proof fn lemma_tick_liquid_spreads(w: WorldView, i: int)
    requires
        w.wf(),
        0 <= i < w.slots.len(),
        w.slots[i].record is Some,
        w.slots[i].record->Some_0.particle.behavior == Behavior::Liquid,
        ({
            let r = w.slots[i].record->Some_0;
            let g = turn(w, i).grid;
            let sub = w.config.sub as int;
            let (sx, sy) = (cell_of(r.position.x as int, sub), cell_of(r.position.y as int, sub));
            &&& occupied(g, sx - 1, sy - 1)
            &&& occupied(g, sx, sy - 1)
            &&& occupied(g, sx + 1, sy - 1)
            &&& cell_of(r.position.y + integrate(r.particle.v as int, w.config), sub) < sy
            &&& (!occupied(g, sx - 1, sy) || !occupied(g, sx + 1, sy))
        }),
    ensures
        ({
            let r = w.slots[i].record->Some_0;
            let r2 = w.tick().slots[i].record->Some_0;
            let sub = w.config.sub as int;
            let (sx, sy) = (cell_of(r.position.x as int, sub), cell_of(r.position.y as int, sub));
            let dx = if !occupied(turn(w, i).grid, sx - 1, sy) {
                sx - 1
            } else {
                sx + 1
            };
            let g = w.tick().grid;
            &&& w.tick().slots[i].record is Some
            &&& r2.particle.v == 0
            &&& r2.position.x == g.wrap_x(dx) * sub
            &&& r2.position.y == g.wrap_y(sy) * sub
            &&& g.get(dx, sy) == Some(w.handle(i))
        }),
{
    lemma_tick_moves_by_plan(w, i);
    let t = turn(w, i);
    assert(t.placed(i));
    let r = w.slots[i].record->Some_0;
    lemma_plan_lands(
        t.config,
        t.grid,
        r.particle.behavior,
        r.particle.v as int,
        r.position.x as int,
        r.position.y as int,
    );
    lemma_first_obstacle(
        t.grid,
        cell_of(r.position.x as int, w.config.sub as int),
        cell_of(r.position.y + integrate(r.particle.v as int, w.config), w.config.sub as int),
        cell_of(r.position.y as int, w.config.sub as int),
    );
    let sub = w.config.sub as int;
    let t2 = w.tick();
    let r2 = t2.slots[i].record->Some_0;
    let g2 = t2.grid;
    assert(t2.placed(i));
    assert(t2.handle(i) == w.handle(i));
    let (kx, ky) = (g2.wrap_x(r2.position.x as int), g2.wrap_y(r2.position.y as int));
    let p = plan(t.config, t.grid, r.particle.behavior, r.particle.v as int, r.position.x as int, r.position.y as int);
    crate::grid::lemma_wrap_in_range(g2, p.dx, p.dy);
    crate::physics::lemma_cell_of_exact(g2.wrap_x(p.dx), sub);
    crate::physics::lemma_cell_of_exact(g2.wrap_y(p.dy), sub);
    vstd::arithmetic::div_mod::lemma_small_mod(g2.wrap_x(p.dx) as nat, g2.xsize as nat);
    vstd::arithmetic::div_mod::lemma_small_mod(g2.wrap_y(p.dy) as nat, g2.ysize as nat);
    let sx = cell_of(r.position.x as int, sub);
    let sy = cell_of(r.position.y as int, sub);
    let ty = cell_of(r.position.y + integrate(r.particle.v as int, w.config), sub);
    assert(first_obstacle(t.grid, sx, ty, sy) == Some(sy - 1));
    assert(t.grid.xsize == g2.xsize && t.grid.ysize == g2.ysize);
    assert(p.px == g2.wrap_x(p.dx) * sub);
    assert(p.py == g2.wrap_y(p.dy) * sub);
    lemma_spans(w.config);
    assert(r2.position.x as int == p.px);
    assert(r2.position.y as int == p.py);
    assert(t2.key_x(r2) == g2.wrap_x(p.dx));
    assert(t2.key_y(r2) == g2.wrap_y(p.dy));
}


/// Two rows less than a field height apart are different rows of the field.
proof fn lemma_wrap_apart(a: int, b: int, n: int)
    requires
        0 < a - b < n,
    ensures
        crate::util::wrap_spec(a, 0, n) != crate::util::wrap_spec(b, 0, n),
{
    vstd::arithmetic::div_mod::lemma_fundamental_div_mod(a, n);
    vstd::arithmetic::div_mod::lemma_fundamental_div_mod(b, n);
    if a % n == b % n {
        assert(false) by (nonlinear_arith)
            requires
                a == n * (a / n) + a % n,
                b == n * (b / n) + b % n,
                a % n == b % n,
                0 < a - b < n,
        ;
    }
}

/// A lone particle on an otherwise empty field never meets an obstacle: the
/// field wraps, so each tick it falls freely in its own column, speeding up
/// to the limit and never coming to rest while gravity pulls; below the
/// bottom row it comes back in at the top. The world after the tick is again
/// a lone moving particle, so this holds tick after tick.
pub proof fn lemma_lone_particle_falls(w: WorldView)
    requires
        w.wf(),
        w.slots.len() == 1,
        w.slots[0].record is Some,
        w.slots[0].record->Some_0.particle.behavior != Behavior::Static,
    ensures
        ({
            let r = w.slots[0].record->Some_0;
            let r2 = w.tick().slots[0].record->Some_0;
            let cfg = w.config;
            &&& w.tick().wf()
            &&& w.tick().config == cfg
            &&& w.tick().slots.len() == 1
            &&& w.tick().slots[0].record is Some
            &&& r2.particle.behavior == r.particle.behavior
            &&& r2.color == r.color
            &&& r2.particle.v == integrate(r.particle.v as int, cfg)
            &&& (cfg.gravity > 0 && cfg.max_v > 0 ==> r2.particle.v < 0)
            &&& r2.position.x == r.position.x
            &&& r2.position.y == wrap_position_spec(r.position.y + r2.particle.v, cfg.span_y())
        }),
{
    let r = w.slots[0].record->Some_0;
    let cfg = w.config;
    let sub = cfg.sub as int;
    let g = w.grid;
    let sx = cell_of(r.position.x as int, sub);
    let sy = cell_of(r.position.y as int, sub);
    let ty = cell_of(r.position.y + integrate(r.particle.v as int, cfg), sub);
    assert(w.placed(0));
    lemma_plan_lands(
        cfg,
        g,
        r.particle.behavior,
        r.particle.v as int,
        r.position.x as int,
        r.position.y as int,
    );
    lemma_first_obstacle(g, sx, ty, sy);
    if let Some(oy) = first_obstacle(g, sx, ty, sy) {
        lemma_wrap_in_range(g, sx, oy);
        assert(w.consistent(g.wrap_x(sx), g.wrap_y(oy)));
        let h = g.cell(g.wrap_x(sx), g.wrap_y(oy))->Some_0;
        assert(h.index == 0);
        lemma_wrap_apart(sy, oy, g.ysize);
    }
    assert(turn(w, 0) == w);
    lemma_tick_free_fall(w, 0);
    lemma_tick_keeps_particles(w);
    assert(kept(w, w.tick(), 0));
    lemma_tick_moves_by_plan(w, 0);
}

} // verus!
