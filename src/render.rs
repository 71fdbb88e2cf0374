//! Display helpers on a copy of the color buffer.
use vstd::prelude::*;
use crate::grid::{Grid, GridView};
use crate::input::{Tool, ToolState};

verus! {

/// The buffer with the red, green and blue bytes of the cell at offset `o`
/// halved; alpha is kept.
pub open spec fn halve_cell(d: Seq<u8>, o: int) -> Seq<u8> {
    d.update(o, (d[o] / 2) as u8).update(o + 1, (d[o + 1] / 2) as u8).update(
        o + 2,
        (d[o + 2] / 2) as u8,
    )
}

/// The buffer after the first `n` cells under the brush have been darkened,
/// in brush order (a cell the brush covers twice is darkened twice).
pub open spec fn shade_brush_spec(d: Seq<u8>, g: GridView, t: ToolState, n: int) -> Seq<u8>
    decreases n,
{
    if n <= 0 {
        d
    } else {
        let k = n - 1;
        halve_cell(
            shade_brush_spec(d, g, t, k),
            g.offset(g.wrap_x(t.brush_x(k)), g.wrap_y(t.brush_y(k))),
        )
    }
}

/// Darkens the cells under the brush in a copy of the grid's buffer, to
/// show where the tool will act; with no tool selected nothing changes.
pub fn shade_brush(grid: &Grid, tool: &ToolState, data: &mut Vec<u8>)
    requires
        grid@.wf(),
        tool.wf(),
        old(data)@.len() == grid@.texture.len(),
    ensures
        final(data)@ == if tool.current_tool == Tool::NoTool {
            old(data)@
        } else {
            shade_brush_spec(old(data)@, grid@, *tool, tool.area())
        },
{
    if tool.current_tool == Tool::NoTool || tool.tool_size < 0 {
        return;
    }
    let side: i32 = 2 * tool.tool_size + 1;
    proof {
        assert(side * side <= 0x4001_0001) by (nonlinear_arith)
            requires
                1 <= side <= 0x8001,
        ;
    }
    let area: i32 = side * side;
    let cx = tool.grid_x as i32;
    let cy = tool.grid_y as i32;
    let mut k: i32 = 0;
    while k < area
        invariant
            0 <= k <= area,
            side == tool.side(),
            area == tool.area(),
            1 <= side <= 0x8001,
            0 <= tool.tool_size,
            tool.wf(),
            cx == tool.grid_x,
            cy == tool.grid_y,
            grid@.wf(),
            data@.len() == grid@.texture.len(),
            data@ == shade_brush_spec(old(data)@, grid@, *tool, k as int),
        decreases area - k,
    {
        proof {
            vstd::arithmetic::div_mod::lemma_fundamental_div_mod(k as int, side as int);
            assert(k / side < side) by (nonlinear_arith)
                requires
                    k == side * (k / side) + k % side,
                    0 <= k % side,
                    k < side * side,
                    0 < side,
            ;
        }
        let x = cx - tool.tool_size + k / side;
        let y = cy - tool.tool_size + k % side;
        let idx = grid.wrap_xy(x, y);
        let o = grid.texture_offset(idx);
        data[o] = data[o] / 2;
        data[o + 1] = data[o + 1] / 2;
        data[o + 2] = data[o + 2] / 2;
        k = k + 1;
    }
}

} // verus!
