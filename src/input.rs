//! Pointer tools: selection by key, the brush, and what it does to the field.
use vstd::prelude::*;
use crate::grid::{lemma_put_frame, lemma_wrap_in_range, Rgba};
use crate::grid::GridView;
use crate::physics::{Behavior, MAX_SIDE};
use crate::world::{World, WorldView};

verus! {

/// What the pointer does to the field.
#[derive(Clone, Copy, PartialEq, Eq, Structural, Debug)]
pub enum Tool {
    NoTool,
    Concrete,
    Sand,
    Water,
    Eraser,
}

/// The keys the simulation reacts to.
#[derive(Clone, Copy, PartialEq, Eq, Structural, Debug)]
pub enum Key {
    Equals,
    Minus,
    Key1,
    Key2,
    Key3,
    Key0,
    H,
    Other,
}

/// Largest brush radius that the size keys select, in cells.
pub const MAX_TOOL_SIZE: i32 = 3;

/// Largest brush radius the brush functions take: its area fits an `i32`.
pub const MAX_BRUSH_RADIUS: i32 = 0x4000;

/// The pointer's tool: which one, its brush radius, whether the button is
/// held, and the cell under the pointer.
#[derive(Clone, Copy, PartialEq, Eq, Structural, Debug)]
pub struct ToolState {
    pub current_tool: Tool,
    pub tool_size: i32,
    pub is_spawning: bool,
    pub grid_x: usize,
    pub grid_y: usize,
}

/// Whether the frame-rate display is shown.
#[derive(Clone, Copy, PartialEq, Eq, Structural, Debug)]
pub struct FpsState {
    pub is_visible: bool,
}

impl Default for ToolState {
    fn default() -> (t: Self)
        ensures
            t.wf(),
            t.current_tool == Tool::NoTool,
            t.tool_size == 0,
            !t.is_spawning,
            t.grid_x == 0,
            t.grid_y == 0,
    {
        ToolState { current_tool: Tool::NoTool, tool_size: 0, is_spawning: false, grid_x: 0, grid_y: 0 }
    }
}

impl Default for FpsState {
    fn default() -> (f: Self)
        ensures
            !f.is_visible,
    {
        FpsState { is_visible: false }
    }
}

impl ToolState {
    /// The brush's area fits an `i32` and the pointer's cell is on a field
    /// of a size this library takes.
    pub open spec fn wf(self) -> bool {
        &&& self.tool_size <= MAX_BRUSH_RADIUS
        &&& self.grid_x <= MAX_SIDE
        &&& self.grid_y <= MAX_SIDE
    }

    /// Side of the square brush, in cells.
    pub open spec fn side(self) -> int {
        2 * self.tool_size + 1
    }

    /// Number of cells under the brush; a negative radius covers none.
    pub open spec fn area(self) -> int {
        if self.tool_size < 0 {
            0
        } else {
            self.side() * self.side()
        }
    }

    /// The `k`-th cell under the brush, column by column from the lower left.
    pub open spec fn brush_x(self, k: int) -> int {
        self.grid_x - self.tool_size + k / self.side()
    }

    pub open spec fn brush_y(self, k: int) -> int {
        self.grid_y - self.tool_size + k % self.side()
    }
}

/// The tool that key `k` selects; keys that select none keep `current`.
pub open spec fn tool_for_key(k: Key, current: Tool) -> Tool {
    match k {
        Key::Key1 => Tool::Concrete,
        Key::Key2 => Tool::Sand,
        Key::Key3 => Tool::Water,
        Key::Key0 => Tool::Eraser,
        _ => current,
    }
}

/// The tools that place particles.
pub open spec fn places_particles(t: Tool) -> bool {
    t == Tool::Concrete || t == Tool::Sand || t == Tool::Water
}

/// The behavior of what a tool places: concrete is static, water liquid,
/// sand solid.
pub open spec fn behavior_of(t: Tool) -> Behavior {
    match t {
        Tool::Concrete => Behavior::Static,
        Tool::Water => Behavior::Liquid,
        _ => Behavior::Solid,
    }
}

pub fn tool_behavior(t: Tool) -> (b: Behavior)
    ensures
        b == behavior_of(t),
{
    match t {
        Tool::Concrete => Behavior::Static,
        Tool::Water => Behavior::Liquid,
        _ => Behavior::Solid,
    }
}

/// A key press: `=` grows the brush and `-` shrinks it, within
/// `0..=MAX_TOOL_SIZE`; any other key may select a tool, and `H` also shows
/// or hides the frame rate.
pub fn handle_key(tool: &mut ToolState, fps: &mut FpsState, key: Key)
    ensures
        key == Key::Equals ==> *final(tool) == (ToolState {
            tool_size: if old(tool).tool_size >= MAX_TOOL_SIZE {
                MAX_TOOL_SIZE
            } else {
                (old(tool).tool_size + 1) as i32
            },
            ..*old(tool)
        }) && *final(fps) == *old(fps),
        key == Key::Minus ==> *final(tool) == (ToolState {
            tool_size: if old(tool).tool_size <= 0 {
                0
            } else {
                (old(tool).tool_size - 1) as i32
            },
            ..*old(tool)
        }) && *final(fps) == *old(fps),
        key != Key::Equals && key != Key::Minus ==> *final(tool) == (ToolState {
            current_tool: tool_for_key(key, old(tool).current_tool),
            ..*old(tool)
        }) && final(fps).is_visible == (old(fps).is_visible != (key == Key::H)),
        old(tool).wf() ==> final(tool).wf(),
{
    match key {
        Key::Equals => {
            tool.tool_size = if tool.tool_size >= MAX_TOOL_SIZE {
                MAX_TOOL_SIZE
            } else {
                tool.tool_size + 1
            };
        },
        Key::Minus => {
            tool.tool_size = if tool.tool_size <= 0 {
                0
            } else {
                tool.tool_size - 1
            };
        },
        _ => {
            tool.current_tool = match key {
                Key::Key1 => Tool::Concrete,
                Key::Key2 => Tool::Sand,
                Key::Key3 => Tool::Water,
                Key::Key0 => Tool::Eraser,
                _ => tool.current_tool,
            };
            if key == Key::H {
                fps.is_visible = !fps.is_visible;
            }
        },
    }
}

/// The pointer moved: onto field cell `cell`, or off the field, which stops
/// spawning.
pub fn cursor_moved(tool: &mut ToolState, cell: Option<(usize, usize)>)
    ensures
        *final(tool) == match cell {
            Some((x, y)) => ToolState { grid_x: x, grid_y: y, ..*old(tool) },
            None => ToolState { is_spawning: false, ..*old(tool) },
        },
{
    match cell {
        Some((x, y)) => {
            tool.grid_x = x;
            tool.grid_y = y;
        },
        None => {
            tool.is_spawning = false;
        },
    }
}


/// No cell among the first `n` under the brush is `(x, y)`.
pub open spec fn untouched(t: ToolState, g: GridView, x: int, y: int, n: int) -> bool {
    forall|k: int| 0 <= k < n ==> !g.same_cell(x, y, #[trigger] t.brush_x(k), t.brush_y(k))
}

/// Cell `(x, y)` holds the same particle in `after` as in `before`, shows the
/// same color, and that particle's record is unchanged.
pub open spec fn kept_cell(before: WorldView, after: WorldView, x: int, y: int) -> bool {
    &&& after.grid.cell(x, y) == before.grid.cell(x, y)
    &&& after.grid.pixel(x, y) == before.grid.pixel(x, y)
    &&& before.grid.cell(x, y) is Some ==> after.record(before.grid.cell(x, y)->Some_0)
        == before.record(before.grid.cell(x, y)->Some_0)
}

/// If the brush filled the empty cell `(x, y)`, it put there the particle
/// that a spawn request for one of the first `n` brush cells that is
/// `(x, y)` creates: at rest, of the tool's behavior, centred on the cell,
/// in the color listed for that brush cell.
pub open spec fn filled_by(
    t: ToolState,
    colors: Seq<Rgba>,
    before: WorldView,
    after: WorldView,
    x: int,
    y: int,
    n: int,
) -> bool {
    before.grid.cell(x, y) is None && after.grid.cell(x, y) is Some ==> {
        let r = after.record(after.grid.cell(x, y)->Some_0);
        exists|k: int|
            0 <= k < n && before.grid.same_cell(x, y, #[trigger] t.brush_x(k), t.brush_y(k))
                && r == before.fresh_record(
                t.brush_x(k),
                t.brush_y(k),
                behavior_of(t.current_tool),
                colors[k],
            )
    }
}

/// Applies the held tool to every cell under the square brush around the
/// pointer, column by column: the eraser empties them; a placing tool puts a
/// new particle at rest into each empty one, the `k`-th taking `colors[k]`,
/// and leaves occupied ones as they are. Nothing happens while the button
/// is up or no tool is selected.
pub fn spawn_particle(world: &mut World, tool: &ToolState, colors: &Vec<Rgba>)
    requires
        old(world)@.wf(),
        tool.wf(),
        tool.is_spawning && places_particles(tool.current_tool) ==> colors@.len() >= tool.area(),
    ensures
        final(world)@.wf(),
        final(world)@.config == old(world)@.config,
        !tool.is_spawning || tool.current_tool == Tool::NoTool ==> final(world)@ == old(world)@,
        forall|x: int, y: int|
            old(world)@.grid.in_range(x, y) && untouched(*tool, old(world)@.grid, x, y, tool.area())
                ==> #[trigger] kept_cell(old(world)@, final(world)@, x, y),
        tool.is_spawning && tool.current_tool == Tool::Eraser ==> forall|k: int|
            0 <= k < tool.area() ==> (#[trigger] final(world)@.grid.get(
                tool.brush_x(k),
                tool.brush_y(k),
            )) is None,
        tool.is_spawning && places_particles(tool.current_tool) ==> {
            &&& forall|k: int|
                0 <= k < tool.area() ==> (#[trigger] final(world)@.grid.get(
                    tool.brush_x(k),
                    tool.brush_y(k),
                )) is Some
            &&& forall|x: int, y: int|
                old(world)@.grid.in_range(x, y) && old(world)@.grid.cell(x, y) is Some
                    ==> #[trigger] kept_cell(old(world)@, final(world)@, x, y)
            &&& forall|x: int, y: int|
                old(world)@.grid.in_range(x, y) ==> #[trigger] filled_by(
                    *tool,
                    colors@,
                    old(world)@,
                    final(world)@,
                    x,
                    y,
                    tool.area(),
                )
        },
{
    if !tool.is_spawning || tool.current_tool == Tool::NoTool || tool.tool_size < 0 {
        return;
    }
    let ghost w0 = world@;
    let side: i32 = 2 * tool.tool_size + 1;
    proof {
        assert(side * side <= 0x4001_0001) by (nonlinear_arith)
            requires
                1 <= side <= 0x8001,
        ;
    }
    let area: i32 = side * side;
    let cx = tool.grid_x as i32;
    let cy = tool.grid_y as i32;
    let behavior = tool_behavior(tool.current_tool);
    let erasing = tool.current_tool == Tool::Eraser;
    let mut k: i32 = 0;
    while k < area
        invariant
            0 <= k <= area,
            side == tool.side(),
            area == tool.area(),
            1 <= side <= 0x8001,
            0 <= tool.tool_size,
            tool.wf(),
            tool.is_spawning,
            tool.current_tool != Tool::NoTool,
            erasing == (tool.current_tool == Tool::Eraser),
            !erasing ==> places_particles(tool.current_tool),
            behavior == behavior_of(tool.current_tool),
            cx == tool.grid_x,
            cy == tool.grid_y,
            places_particles(tool.current_tool) ==> colors@.len() >= tool.area(),
            w0.wf(),
            world@.wf(),
            world@.config == w0.config,
            forall|x: int, y: int|
                w0.grid.in_range(x, y) && untouched(*tool, w0.grid, x, y, k as int)
                    ==> #[trigger] kept_cell(w0, world@, x, y),
            erasing ==> forall|j: int|
                0 <= j < k ==> (#[trigger] world@.grid.get(tool.brush_x(j), tool.brush_y(j))) is None,
            !erasing ==> forall|j: int|
                0 <= j < k ==> (#[trigger] world@.grid.get(tool.brush_x(j), tool.brush_y(j))) is Some,
            !erasing ==> forall|x: int, y: int|
                w0.grid.in_range(x, y) && w0.grid.cell(x, y) is Some
                    ==> #[trigger] kept_cell(w0, world@, x, y),
            !erasing ==> forall|x: int, y: int|
                w0.grid.in_range(x, y) ==> #[trigger] filled_by(
                    *tool,
                    colors@,
                    w0,
                    world@,
                    x,
                    y,
                    k as int,
                ),
        decreases area - k,
    {
        proof {
            vstd::arithmetic::div_mod::lemma_fundamental_div_mod(k as int, side as int);
            assert(k / side < side) by (nonlinear_arith)
                requires
                    k == side * (k / side) + k % side,
                    0 <= k % side,
                    k < side * side,
                    0 < side,
            ;
        }
        let x = cx - tool.tool_size + k / side;
        let y = cy - tool.tool_size + k % side;
        let ghost w1 = world@;
        let ghost g = w1.grid;
        let ghost (wx, wy) = (g.wrap_x(x as int), g.wrap_y(y as int));
        proof {
            lemma_wrap_in_range(g, x as int, y as int);
            assert(x == tool.brush_x(k as int));
            assert(y == tool.brush_y(k as int));
        }
        let mut placed = false;
        if erasing {
            world.erase(x, y);
        } else {
            placed = world.spawn(x, y, behavior, colors[k as usize]);
        }
        proof {
            let w2 = world@;
            if !erasing && placed {
                let h = w2.grid.get(x as int, y as int)->Some_0;
                lemma_put_frame(g, wx, wy, Some(h), colors@[k as int], wx, wy);
            }
            if erasing || placed {
                let e = if erasing {
                    None
                } else {
                    w2.grid.get(x as int, y as int)
                };
                let c = if erasing {
                    g.background
                } else {
                    colors@[k as int]
                };
                assert(w2.grid == g.put(wx, wy, e, c));
                assert forall|xx: int, yy: int| g.in_range(xx, yy) implies {
                    &&& #[trigger] w2.grid.cell(xx, yy) == if xx == wx && yy == wy {
                        e
                    } else {
                        w1.grid.cell(xx, yy)
                    }
                    &&& w2.grid.pixel(xx, yy) == if xx == wx && yy == wy {
                        c
                    } else {
                        w1.grid.pixel(xx, yy)
                    }
                    &&& xx == g.wrap_x(xx)
                    &&& yy == g.wrap_y(yy)
                } by {
                    vstd::arithmetic::div_mod::lemma_small_mod(xx as nat, g.xsize as nat);
                    vstd::arithmetic::div_mod::lemma_small_mod(yy as nat, g.ysize as nat);
                    lemma_put_frame(g, wx, wy, e, c, xx, yy);
                }
            }
            // particles in other cells keep their records
            assert forall|xx: int, yy: int|
                g.in_range(xx, yy) && !(xx == wx && yy == wy) && w1.grid.cell(xx, yy) is Some implies #[trigger] w2.record(
                w1.grid.cell(xx, yy)->Some_0,
            ) == w1.record(w1.grid.cell(xx, yy)->Some_0) by {
                let hh = w1.grid.cell(xx, yy)->Some_0;
                assert(w1.consistent(xx, yy));
                assert(w1.consistent(wx, wy));
                if erasing {
                    if let Some(h) = w1.grid.cell(wx, wy) {
                        assert(hh.index != h.index);
                    }
                } else if placed {
                    let h = w2.grid.get(x as int, y as int)->Some_0;
                    assert(hh.index != h.index);
                }
            }
            assert forall|xx: int, yy: int|
                w0.grid.in_range(xx, yy) && untouched(*tool, w0.grid, xx, yy, k + 1) implies #[trigger] kept_cell(
                w0,
                w2,
                xx,
                yy,
            ) by {
                assert(!w0.grid.same_cell(xx, yy, tool.brush_x(k as int), tool.brush_y(k as int)));
                assert(untouched(*tool, w0.grid, xx, yy, k as int));
                assert(kept_cell(w0, w1, xx, yy));
                assert(w2.grid.cell(xx, yy) == w1.grid.cell(xx, yy));
                if w1.grid.cell(xx, yy) is Some {
                    assert(w2.record(w1.grid.cell(xx, yy)->Some_0) == w1.record(
                        w1.grid.cell(xx, yy)->Some_0,
                    ));
                }
            }
            if erasing {
                assert forall|j: int| 0 <= j < k + 1 implies (#[trigger] w2.grid.get(
                    tool.brush_x(j),
                    tool.brush_y(j),
                )) is None by {
                    lemma_wrap_in_range(g, tool.brush_x(j), tool.brush_y(j));
                    if j < k {
                        assert(w1.grid.get(tool.brush_x(j), tool.brush_y(j)) is None);
                    }
                    assert(w2.grid.cell(g.wrap_x(tool.brush_x(j)), g.wrap_y(tool.brush_y(j))) is None);
                }
            } else {
                assert(w2.grid.get(x as int, y as int) is Some);
                assert forall|j: int| 0 <= j < k + 1 implies (#[trigger] w2.grid.get(
                    tool.brush_x(j),
                    tool.brush_y(j),
                )) is Some by {
                    lemma_wrap_in_range(g, tool.brush_x(j), tool.brush_y(j));
                    if j < k {
                        assert(w1.grid.get(tool.brush_x(j), tool.brush_y(j)) is Some);
                        assert(w2.grid.cell(g.wrap_x(tool.brush_x(j)), g.wrap_y(tool.brush_y(j))) is Some);
                    }
                }
                assert forall|xx: int, yy: int|
                    w0.grid.in_range(xx, yy) && w0.grid.cell(xx, yy) is Some implies #[trigger] kept_cell(
                    w0,
                    w2,
                    xx,
                    yy,
                ) by {
                    assert(kept_cell(w0, w1, xx, yy));
                    assert(w1.consistent(xx, yy));
                    assert(w2.grid.cell(xx, yy) == w1.grid.cell(xx, yy));
                    assert(w2.record(w1.grid.cell(xx, yy)->Some_0) == w1.record(
                        w1.grid.cell(xx, yy)->Some_0,
                    ));
                }
                assert forall|xx: int, yy: int| w0.grid.in_range(xx, yy) implies #[trigger] filled_by(
                    *tool,
                    colors@,
                    w0,
                    w2,
                    xx,
                    yy,
                    k + 1,
                ) by {
                    assert(filled_by(*tool, colors@, w0, w1, xx, yy, k as int));
                    assert(w1.consistent(xx, yy));
                    if w0.grid.cell(xx, yy) is None && w2.grid.cell(xx, yy) is Some {
                        if placed && xx == wx && yy == wy {
                            assert(w0.grid.same_cell(xx, yy, tool.brush_x(k as int), tool.brush_y(k as int)));
                            assert(w1.fresh_record(x as int, y as int, behavior, colors@[k as int])
                                == w0.fresh_record(
                                tool.brush_x(k as int),
                                tool.brush_y(k as int),
                                behavior_of(tool.current_tool),
                                colors@[k as int],
                            ));
                        } else {
                            let hh = w1.grid.cell(xx, yy)->Some_0;
                            assert(w2.record(hh) == w1.record(hh));
                            let kk = choose|kk: int|
                                0 <= kk < k && w0.grid.same_cell(xx, yy, #[trigger] tool.brush_x(kk), tool.brush_y(kk))
                                    && w1.record(hh) == w0.fresh_record(
                                    tool.brush_x(kk),
                                    tool.brush_y(kk),
                                    behavior_of(tool.current_tool),
                                    colors@[kk],
                                );
                            assert(0 <= kk < k + 1 && w0.grid.same_cell(xx, yy, tool.brush_x(kk), tool.brush_y(kk)));
                        }
                    }
                }
            }
        }
        k = k + 1;
    }
}


/// The colors a tool paints with, one drawn at random per particle: a single
/// grey for concrete, two blues for water, three sand tones otherwise.
pub open spec fn palette(t: Tool) -> Seq<Rgba> {
    match t {
        Tool::Concrete => seq![Rgba { r: 148, g: 153, b: 151, a: 255 }],
        Tool::Water => seq![
            Rgba { r: 53, g: 148, b: 189, a: 255 },
            Rgba { r: 76, g: 171, b: 207, a: 255 },
        ],
        _ => seq![
            Rgba { r: 245, g: 189, b: 135, a: 255 },
            Rgba { r: 243, g: 227, b: 127, a: 255 },
            Rgba { r: 235, g: 232, b: 184, a: 255 },
        ],
    }
}

/// Entry `choice` (taken modulo the palette's size) of the tool's palette;
/// the caller draws `choice` at random.
pub fn tool_color(tool: Tool, choice: usize) -> (c: Rgba)
    ensures
        c == palette(tool)[(choice as int) % (palette(tool).len() as int)],
{
    match tool {
        Tool::Concrete => Rgba { r: 148, g: 153, b: 151, a: 255 },
        Tool::Water => {
            if choice % 2 == 0 {
                Rgba { r: 53, g: 148, b: 189, a: 255 }
            } else {
                Rgba { r: 76, g: 171, b: 207, a: 255 }
            }
        },
        _ => {
            let k = choice % 3;
            if k == 0 {
                Rgba { r: 245, g: 189, b: 135, a: 255 }
            } else if k == 1 {
                Rgba { r: 243, g: 227, b: 127, a: 255 }
            } else {
                Rgba { r: 235, g: 232, b: 184, a: 255 }
            }
        },
    }
}

} // verus!
