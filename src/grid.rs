//! The occupancy grid: a toroidal field of cells, each holding at most one
//! particle handle, kept in step with an RGBA buffer for display.
use vstd::prelude::*;
use crate::util::{wrap, wrap_spec};

verus! {

/// Bytes per cell in the color buffer.
pub const TEXTURE_STRIDE: usize = 4;

/// A display color, one byte per channel.
#[derive(Clone, Copy, PartialEq, Eq, Structural, Debug)]
pub struct Rgba {
    pub r: u8,
    pub g: u8,
    pub b: u8,
    pub a: u8,
}

/// A generational key into a particle store: the slot index and the number
/// of times that slot has been reused.
#[derive(Clone, Copy, PartialEq, Eq, Structural, Debug)]
pub struct Handle {
    pub index: usize,
    pub generation: u32,
}

/// Channel `k` (0 = red .. 3 = alpha) of a color.
pub open spec fn channel(c: Rgba, k: int) -> u8 {
    if k == 0 {
        c.r
    } else if k == 1 {
        c.g
    } else if k == 2 {
        c.b
    } else {
        c.a
    }
}

/// The mathematical state of a grid: its size, background color, the
/// occupant of each cell (row-major, row 0 lowest) and the RGBA buffer
/// (row-major, vertically flipped).
pub struct GridView {
    pub xsize: int,
    pub ysize: int,
    pub background: Rgba,
    pub cells: Seq<Option<Handle>>,
    pub texture: Seq<u8>,
}

impl GridView {
    pub open spec fn wf(self) -> bool {
        &&& 0 < self.xsize <= i32::MAX
        &&& 0 < self.ysize <= i32::MAX
        &&& self.xsize * self.ysize * 4 <= usize::MAX
        &&& self.cells.len() == self.xsize * self.ysize
        &&& self.texture.len() == self.xsize * self.ysize * 4
    }

    pub open spec fn in_range(self, x: int, y: int) -> bool {
        0 <= x < self.xsize && 0 <= y < self.ysize
    }

    pub open spec fn wrap_x(self, x: int) -> int {
        wrap_spec(x, 0, self.xsize)
    }

    pub open spec fn wrap_y(self, y: int) -> int {
        wrap_spec(y, 0, self.ysize)
    }

    /// Two coordinates name the same cell.
    pub open spec fn same_cell(self, x1: int, y1: int, x2: int, y2: int) -> bool {
        self.wrap_x(x1) == self.wrap_x(x2) && self.wrap_y(y1) == self.wrap_y(y2)
    }

    /// Position of a normalized cell in `cells`.
    pub open spec fn index(self, x: int, y: int) -> int {
        y * self.xsize + x
    }

    /// Position of a normalized cell's first byte in `texture`.
    pub open spec fn offset(self, x: int, y: int) -> int {
        (x + (self.ysize - y - 1) * self.xsize) * 4
    }

    /// Occupant of a normalized cell.
    pub open spec fn cell(self, x: int, y: int) -> Option<Handle> {
        self.cells[self.index(x, y)]
    }

    /// Buffer color of a normalized cell.
    pub open spec fn pixel(self, x: int, y: int) -> Rgba {
        let o = self.offset(x, y);
        Rgba {
            r: self.texture[o],
            g: self.texture[o + 1],
            b: self.texture[o + 2],
            a: self.texture[o + 3],
        }
    }

    /// Occupant of any coordinate, after wrapping.
    pub open spec fn get(self, x: int, y: int) -> Option<Handle> {
        self.cell(self.wrap_x(x), self.wrap_y(y))
    }

    /// Buffer color of any coordinate, after wrapping.
    pub open spec fn color(self, x: int, y: int) -> Rgba {
        self.pixel(self.wrap_x(x), self.wrap_y(y))
    }

    /// The buffer with a normalized cell painted `c`.
    pub open spec fn paint(self, x: int, y: int, c: Rgba) -> Seq<u8> {
        let o = self.offset(x, y);
        self.texture.update(o, c.r).update(o + 1, c.g).update(o + 2, c.b).update(o + 3, c.a)
    }

    /// A normalized cell given occupant `e` and color `c`.
    pub open spec fn put(self, x: int, y: int, e: Option<Handle>, c: Rgba) -> GridView {
        GridView {
            cells: self.cells.update(self.index(x, y), e),
            texture: self.paint(x, y, c),
            ..self
        }
    }

    /// The occupied cells among the first `n` of the cell list, in row-major
    /// order, each with its coordinates and occupant.
    pub open spec fn occupied_prefix(self, n: int) -> Seq<(usize, usize, Handle)>
        decreases n,
    {
        if n <= 0 {
            Seq::empty()
        } else {
            let rest = self.occupied_prefix(n - 1);
            match self.cells[n - 1] {
                Some(h) => rest.push(
                    (((n - 1) % self.xsize) as usize, ((n - 1) / self.xsize) as usize, h),
                ),
                None => rest,
            }
        }
    }

    /// Every occupied cell with its occupant, row by row from the bottom.
    pub open spec fn occupied(self) -> Seq<(usize, usize, Handle)> {
        self.occupied_prefix(self.cells.len() as int)
    }

    pub open spec fn set(self, x: int, y: int, h: Handle, c: Rgba) -> GridView {
        self.put(self.wrap_x(x), self.wrap_y(y), Some(h), c)
    }

    pub open spec fn remove(self, x: int, y: int) -> GridView {
        self.put(self.wrap_x(x), self.wrap_y(y), None, self.background)
    }

    pub open spec fn swap(self, x1: int, y1: int, x2: int, y2: int) -> GridView {
        let (ax, ay) = (self.wrap_x(x1), self.wrap_y(y1));
        let (bx, by) = (self.wrap_x(x2), self.wrap_y(y2));
        if ax == bx && ay == by {
            self
        } else {
            self.put(ax, ay, self.cell(bx, by), self.pixel(bx, by)).put(
                bx,
                by,
                self.cell(ax, ay),
                self.pixel(ax, ay),
            )
        }
    }
}

/// Wrapped coordinates name a cell of the field.
pub proof fn lemma_wrap_in_range(g: GridView, x: int, y: int)
    requires
        g.wf(),
    ensures
        g.in_range(g.wrap_x(x), g.wrap_y(y)),
{
}

/// Row-major numbering of a `w` by `h` block stays inside it and gives
/// distinct cells distinct numbers.
proof fn lemma_row_major(w: int, h: int, x1: int, y1: int, x2: int, y2: int)
    requires
        0 <= x1 < w,
        0 <= x2 < w,
        0 <= y1 < h,
        0 <= y2 < h,
    ensures
        0 <= y1 * w + x1 < w * h,
        y1 * w + x1 == y2 * w + x2 ==> x1 == x2 && y1 == y2,
{
    assert(0 <= y1 * w + x1 < w * h) by (nonlinear_arith)
        requires
            0 <= x1 < w,
            0 <= y1 < h,
    ;
    if y1 < y2 {
        assert(y1 * w + x1 < y2 * w + x2) by (nonlinear_arith)
            requires
                0 <= x1 < w,
                0 <= x2,
                y1 < y2,
        ;
    } else if y2 < y1 {
        assert(y2 * w + x2 < y1 * w + x1) by (nonlinear_arith)
            requires
                0 <= x2 < w,
                0 <= x1,
                y2 < y1,
        ;
    }
}

/// Where two normalized cells sit in the cell list and the buffer: inside
/// them, and apart whenever the cells differ.
pub proof fn lemma_layout(g: GridView, x1: int, y1: int, x2: int, y2: int)
    requires
        g.wf(),
        g.in_range(x1, y1),
        g.in_range(x2, y2),
    ensures
        0 <= g.index(x1, y1) < g.cells.len(),
        0 <= g.offset(x1, y1),
        g.offset(x1, y1) + 4 <= g.texture.len(),
        g.offset(x1, y1) % 4 == 0,
        (x1 != x2 || y1 != y2) ==> g.index(x1, y1) != g.index(x2, y2),
        (x1 != x2 || y1 != y2) ==> (g.offset(x1, y1) + 4 <= g.offset(x2, y2) || g.offset(
            x2,
            y2,
        ) + 4 <= g.offset(x1, y1)),
{
    let (w, h) = (g.xsize, g.ysize);
    lemma_row_major(w, h, x1, y1, x2, y2);
    lemma_row_major(w, h, x1, h - y1 - 1, x2, h - y2 - 1);
    let k1 = (h - y1 - 1) * w + x1;
    let k2 = (h - y2 - 1) * w + x2;
    assert(g.offset(x1, y1) == k1 * 4) by (nonlinear_arith)
        requires
            g.offset(x1, y1) == (x1 + (h - y1 - 1) * w) * 4,
            k1 == (h - y1 - 1) * w + x1,
    ;
    assert(g.offset(x2, y2) == k2 * 4) by (nonlinear_arith)
        requires
            g.offset(x2, y2) == (x2 + (h - y2 - 1) * w) * 4,
            k2 == (h - y2 - 1) * w + x2,
    ;
    assert(k1 * 4 + 4 <= w * h * 4) by (nonlinear_arith)
        requires
            k1 < w * h,
    ;
}

/// A write to one normalized cell leaves every other cell, and its color,
/// as it was.
pub proof fn lemma_put_frame(g: GridView, x: int, y: int, e: Option<Handle>, c: Rgba, a: int, b: int)
    requires
        g.wf(),
        g.in_range(x, y),
        g.in_range(a, b),
    ensures
        g.put(x, y, e, c).wf(),
        g.put(x, y, e, c).cell(a, b) == (if a == x && b == y {
            e
        } else {
            g.cell(a, b)
        }),
        g.put(x, y, e, c).pixel(a, b) == (if a == x && b == y {
            c
        } else {
            g.pixel(a, b)
        }),
{
    lemma_layout(g, x, y, a, b);
    lemma_layout(g, a, b, x, y);
}


/// The occupancy grid: one optional particle handle per cell of a toroidal
/// field, kept beside an RGBA buffer that shows each cell's color.
pub struct Grid {
    particles: Vec<Option<Handle>>,
    xsize: usize,
    ysize: usize,
    background_color: Rgba,
    texture: Vec<u8>,
}

impl View for Grid {
    type V = GridView;

    closed spec fn view(&self) -> GridView {
        GridView {
            xsize: self.xsize as int,
            ysize: self.ysize as int,
            background: self.background_color,
            cells: self.particles@,
            texture: self.texture@,
        }
    }
}

impl Grid {
    /// An empty grid of `xsize` by `ysize` cells, its buffer filled with the
    /// background color.
    pub fn new(xsize: usize, ysize: usize, background_color: Rgba) -> (g: Grid)
        requires
            0 < xsize <= i32::MAX,
            0 < ysize <= i32::MAX,
            xsize * ysize * 4 <= usize::MAX,
        ensures
            g@.wf(),
            g@.xsize == xsize,
            g@.ysize == ysize,
            g@.background == background_color,
            forall|i: int| 0 <= i < g@.cells.len() ==> g@.cells[i] is None,
            forall|i: int|
                0 <= i < g@.texture.len() ==> g@.texture[i] == channel(background_color, i % 4),
    {
        let n: usize = xsize * ysize;
        let mut particles: Vec<Option<Handle>> = Vec::new();
        let mut i: usize = 0;
        while i < n
            invariant
                i <= n,
                particles@.len() == i,
                forall|k: int| 0 <= k < i ==> particles@[k] is None,
            decreases n - i,
        {
            particles.push(None);
            i = i + 1;
        }
        let mut texture: Vec<u8> = Vec::new();
        let mut j: usize = 0;
        while j < n
            invariant
                n == xsize * ysize,
                n * 4 <= usize::MAX,
                j <= n,
                texture@.len() == j * 4,
                forall|k: int|
                    0 <= k < texture@.len() ==> texture@[k] == channel(background_color, k % 4),
            decreases n - j,
        {
            texture.push(background_color.r);
            texture.push(background_color.g);
            texture.push(background_color.b);
            texture.push(background_color.a);
            proof {
                assert forall|k: int|
                    0 <= k < texture@.len() implies texture@[k] == channel(
                        background_color,
                        k % 4,
                    ) by {
                    if k >= j * 4 {
                        assert(k % 4 == k - j * 4) by (nonlinear_arith)
                            requires
                                j * 4 <= k < j * 4 + 4,
                        ;
                    }
                }
            }
            j = j + 1;
        }
        Grid { particles, xsize, ysize, background_color, texture }
    }

    pub fn xsize(&self) -> (r: usize)
        ensures
            r == self@.xsize,
    {
        self.xsize
    }

    pub fn ysize(&self) -> (r: usize)
        ensures
            r == self@.ysize,
    {
        self.ysize
    }

    pub fn background_color(&self) -> (r: Rgba)
        ensures
            r == self@.background,
    {
        self.background_color
    }

    /// The RGBA buffer: row-major, vertically flipped, four bytes per cell.
    pub fn read_color_buffer(&self) -> (r: &[u8])
        ensures
            r@ == self@.texture,
    {
        self.texture.as_slice()
    }

    /// Both coordinates brought onto the field.
    pub fn wrap_xy(&self, x: i32, y: i32) -> (r: (usize, usize))
        requires
            self@.wf(),
        ensures
            r.0 == self@.wrap_x(x as int),
            r.1 == self@.wrap_y(y as int),
            self@.in_range(r.0 as int, r.1 as int),
    {
        (wrap(x, 0, self.xsize as i32) as usize, wrap(y, 0, self.ysize as i32) as usize)
    }

    /// Where a normalized cell sits in the occupancy list (row-major).
    pub fn grid_index(&self, idx: (usize, usize)) -> (r: usize)
        requires
            self@.wf(),
            self@.in_range(idx.0 as int, idx.1 as int),
        ensures
            r == self@.index(idx.0 as int, idx.1 as int),
            r < self@.cells.len(),
    {
        let (x, y) = idx;
        proof {
            lemma_layout(self@, x as int, y as int, x as int, y as int);
        }
        y * self.xsize + x
    }

    /// Where a normalized cell's first byte sits in the buffer.
    pub fn texture_offset(&self, idx: (usize, usize)) -> (r: usize)
        requires
            self@.wf(),
            self@.in_range(idx.0 as int, idx.1 as int),
        ensures
            r == self@.offset(idx.0 as int, idx.1 as int),
            r + 4 <= self@.texture.len(),
    {
        let (x, y) = idx;
        proof {
            lemma_layout(self@, x as int, y as int, x as int, y as int);
        }
        (x + (self.ysize - y - 1) * self.xsize) * TEXTURE_STRIDE
    }

    /// The occupant of a cell, if any.
    pub fn get(&self, x: i32, y: i32) -> (r: Option<Handle>)
        requires
            self@.wf(),
        ensures
            r == self@.get(x as int, y as int),
    {
        let idx = self.wrap_xy(x, y);
        self.particles[self.grid_index(idx)]
    }

    /// The occupied cells with their occupants, row by row from the bottom,
    /// each row left to right.
    pub fn occupied(&self) -> (r: Vec<(usize, usize, Handle)>)
        requires
            self@.wf(),
        ensures
            r@ == self@.occupied(),
    {
        let n = self.particles.len();
        let mut r: Vec<(usize, usize, Handle)> = Vec::new();
        let mut i: usize = 0;
        while i < n
            invariant
                self@.wf(),
                n == self@.cells.len(),
                i <= n,
                r@ == self@.occupied_prefix(i as int),
            decreases n - i,
        {
            if let Some(h) = self.particles[i] {
                r.push((i % self.xsize, i / self.xsize, h));
            }
            i = i + 1;
        }
        r
    }

    /// Paints a normalized cell's slot in the buffer.
    pub fn copy_into_texture(&mut self, idx: (usize, usize), src: Rgba)
        requires
            old(self)@.wf(),
            old(self)@.in_range(idx.0 as int, idx.1 as int),
        ensures
            final(self)@ == (GridView {
                texture: old(self)@.paint(idx.0 as int, idx.1 as int, src),
                ..old(self)@
            }),
            final(self)@.wf(),
    {
        let offset = self.texture_offset(idx);
        self.texture[offset] = src.r;
        self.texture[offset + 1] = src.g;
        self.texture[offset + 2] = src.b;
        self.texture[offset + 3] = src.a;
    }

    /// Puts handle `e` with color `color` at a cell, replacing what was there.
    pub fn set(&mut self, x: i32, y: i32, e: Handle, color: Rgba)
        requires
            old(self)@.wf(),
        ensures
            final(self)@ == old(self)@.set(x as int, y as int, e, color),
            final(self)@.wf(),
    {
        let idx = self.wrap_xy(x, y);
        self.copy_into_texture(idx, color);
        let gidx = self.grid_index(idx);
        self.particles[gidx] = Some(e);
        proof {
            lemma_put_frame(old(self)@, idx.0 as int, idx.1 as int, Some(e), color, 0, 0);
        }
    }

    /// Empties a cell, painting it the background color; returns what
    /// occupied it.
    pub fn remove(&mut self, x: i32, y: i32) -> (r: Option<Handle>)
        requires
            old(self)@.wf(),
        ensures
            r == old(self)@.get(x as int, y as int),
            final(self)@ == old(self)@.remove(x as int, y as int),
            final(self)@.wf(),
    {
        let idx = self.wrap_xy(x, y);
        let bg = self.background_color;
        self.copy_into_texture(idx, bg);
        let gidx = self.grid_index(idx);
        let r = self.particles[gidx];
        self.particles[gidx] = None;
        proof {
            lemma_put_frame(old(self)@, idx.0 as int, idx.1 as int, None, bg, 0, 0);
        }
        r
    }

    /// Exchanges the occupants and colors of two cells; a no-op when both
    /// coordinates name the same cell.
    pub fn swap(&mut self, x1: i32, y1: i32, x2: i32, y2: i32)
        requires
            old(self)@.wf(),
        ensures
            final(self)@ == old(self)@.swap(x1 as int, y1 as int, x2 as int, y2 as int),
            final(self)@.wf(),
    {
        let (idx1, idx2) = (self.wrap_xy(x1, y1), self.wrap_xy(x2, y2));
        if idx1.0 == idx2.0 && idx1.1 == idx2.1 {
            return;
        }
        let (gidx1, gidx2) = (self.grid_index(idx1), self.grid_index(idx2));
        let (off1, off2) = (self.texture_offset(idx1), self.texture_offset(idx2));
        let ghost g0 = self@;
        let e1 = self.particles[gidx1];
        let e2 = self.particles[gidx2];
        let c1 = Rgba {
            r: self.texture[off1],
            g: self.texture[off1 + 1],
            b: self.texture[off1 + 2],
            a: self.texture[off1 + 3],
        };
        let c2 = Rgba {
            r: self.texture[off2],
            g: self.texture[off2 + 1],
            b: self.texture[off2 + 2],
            a: self.texture[off2 + 3],
        };
        self.copy_into_texture(idx1, c2);
        self.particles[gidx1] = e2;
        proof {
            lemma_put_frame(g0, idx1.0 as int, idx1.1 as int, e2, c2, 0, 0);
        }
        self.copy_into_texture(idx2, c1);
        self.particles[gidx2] = e1;
    }
}


/// Swapping a cell with itself leaves the grid as it was.
pub proof fn lemma_swap_self(g: GridView, x: int, y: int)
    ensures
        g.swap(x, y, x, y) == g,
{
}

/// Swapping two distinct cells exchanges their occupants and colors, and
/// leaves every other cell as it was.
pub proof fn lemma_swap_exchanges(g: GridView, x1: int, y1: int, x2: int, y2: int)
    requires
        g.wf(),
        !g.same_cell(x1, y1, x2, y2),
    ensures
        g.swap(x1, y1, x2, y2).wf(),
        g.swap(x1, y1, x2, y2).get(x1, y1) == g.get(x2, y2),
        g.swap(x1, y1, x2, y2).get(x2, y2) == g.get(x1, y1),
        g.swap(x1, y1, x2, y2).color(x1, y1) == g.color(x2, y2),
        g.swap(x1, y1, x2, y2).color(x2, y2) == g.color(x1, y1),
        forall|x: int, y: int|
            g.in_range(x, y) && !g.same_cell(x, y, x1, y1) && !g.same_cell(x, y, x2, y2) ==> {
                &&& #[trigger] g.swap(x1, y1, x2, y2).cell(x, y) == g.cell(x, y)
                &&& g.swap(x1, y1, x2, y2).pixel(x, y) == g.pixel(x, y)
            },
{
    let (ax, ay) = (g.wrap_x(x1), g.wrap_y(y1));
    let (bx, by) = (g.wrap_x(x2), g.wrap_y(y2));
    let g1 = g.put(ax, ay, g.cell(bx, by), g.pixel(bx, by));
    lemma_put_frame(g, ax, ay, g.cell(bx, by), g.pixel(bx, by), bx, by);
    lemma_put_frame(g, ax, ay, g.cell(bx, by), g.pixel(bx, by), ax, ay);
    lemma_put_frame(g1, bx, by, g.cell(ax, ay), g.pixel(ax, ay), ax, ay);
    lemma_put_frame(g1, bx, by, g.cell(ax, ay), g.pixel(ax, ay), bx, by);
    assert forall|x: int, y: int|
        g.in_range(x, y) && !g.same_cell(x, y, x1, y1) && !g.same_cell(x, y, x2, y2) implies {
            &&& #[trigger] g.swap(x1, y1, x2, y2).cell(x, y) == g.cell(x, y)
            &&& g.swap(x1, y1, x2, y2).pixel(x, y) == g.pixel(x, y)
        } by {
        vstd::arithmetic::div_mod::lemma_small_mod(x as nat, g.xsize as nat);
        vstd::arithmetic::div_mod::lemma_small_mod(y as nat, g.ysize as nat);
        lemma_put_frame(g, ax, ay, g.cell(bx, by), g.pixel(bx, by), x, y);
        lemma_put_frame(g1, bx, by, g.cell(ax, ay), g.pixel(ax, ay), x, y);
    }
}

/// Side length of the default field.
pub const FIELD_WIDTH: usize = 200;

pub const FIELD_HEIGHT: usize = 200;

/// Red, green and blue of the default background: a dark grey, opaque.
pub const BACKGROUND_SHADE: u8 = 28;

pub open spec fn default_background() -> Rgba {
    Rgba { r: BACKGROUND_SHADE, g: BACKGROUND_SHADE, b: BACKGROUND_SHADE, a: 255 }
}

impl Default for Grid {
    /// An empty field of the default size.
    fn default() -> (g: Self)
        ensures
            g@.wf(),
            g@.xsize == FIELD_WIDTH,
            g@.ysize == FIELD_HEIGHT,
            g@.background == default_background(),
            forall|i: int| 0 <= i < g@.cells.len() ==> g@.cells[i] is None,
            forall|i: int|
                0 <= i < g@.texture.len() ==> g@.texture[i] == channel(default_background(), i % 4),
    {
        let bg = Rgba { r: BACKGROUND_SHADE, g: BACKGROUND_SHADE, b: BACKGROUND_SHADE, a: 255 };
        Grid::new(FIELD_WIDTH, FIELD_HEIGHT, bg)
    }
}

} // verus!
