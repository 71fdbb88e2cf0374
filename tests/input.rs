use sandfall::grid::Rgba;
use sandfall::input::{
    cursor_moved, handle_key, spawn_particle, tool_behavior, tool_color, FpsState, Key, Tool,
    ToolState,
    MAX_TOOL_SIZE,
};
use sandfall::physics::{Behavior, Config};
use sandfall::render::shade_brush;
use sandfall::world::World;

fn bg() -> Rgba {
    Rgba { r: 9, g: 9, b: 9, a: 255 }
}

fn config() -> Config {
    Config { width: 8, height: 8, sub: 1, gravity: 1, max_v: 1, background: bg() }
}

fn shade(i: u8) -> Rgba {
    Rgba { r: i, g: i, b: i, a: 255 }
}

fn palette(n: usize) -> Vec<Rgba> {
    (0..n).map(|i| shade(100 + i as u8)).collect()
}

fn tool(t: Tool, size: i32, x: usize, y: usize) -> ToolState {
    ToolState { current_tool: t, tool_size: size, is_spawning: true, grid_x: x, grid_y: y }
}

#[test]
fn defaults() {
    let t = ToolState::default();
    assert_eq!(t.current_tool, Tool::NoTool);
    assert_eq!((t.tool_size, t.is_spawning, t.grid_x, t.grid_y), (0, false, 0, 0));
    assert!(!FpsState::default().is_visible);
}

#[test]
fn keys_resize_brush_within_limits() {
    let mut t = ToolState::default();
    let mut f = FpsState::default();
    for _ in 0..5 {
        handle_key(&mut t, &mut f, Key::Equals);
    }
    assert_eq!(t.tool_size, MAX_TOOL_SIZE);
    assert_eq!(MAX_TOOL_SIZE, 3);
    handle_key(&mut t, &mut f, Key::Minus);
    assert_eq!(t.tool_size, 2);
    for _ in 0..5 {
        handle_key(&mut t, &mut f, Key::Minus);
    }
    assert_eq!(t.tool_size, 0);
    assert!(!f.is_visible);
}

#[test]
fn keys_select_tools_and_toggle_fps() {
    let mut t = ToolState::default();
    let mut f = FpsState::default();
    handle_key(&mut t, &mut f, Key::Key1);
    assert_eq!(t.current_tool, Tool::Concrete);
    handle_key(&mut t, &mut f, Key::Key2);
    assert_eq!(t.current_tool, Tool::Sand);
    handle_key(&mut t, &mut f, Key::Key3);
    assert_eq!(t.current_tool, Tool::Water);
    handle_key(&mut t, &mut f, Key::Key0);
    assert_eq!(t.current_tool, Tool::Eraser);
    handle_key(&mut t, &mut f, Key::Other);
    assert_eq!(t.current_tool, Tool::Eraser);
    assert!(!f.is_visible);
    handle_key(&mut t, &mut f, Key::H);
    assert!(f.is_visible);
    assert_eq!(t.current_tool, Tool::Eraser);
    handle_key(&mut t, &mut f, Key::H);
    assert!(!f.is_visible);
}

#[test]
fn cursor_leaving_the_field_stops_spawning() {
    let mut t = tool(Tool::Sand, 0, 1, 1);
    cursor_moved(&mut t, Some((5, 6)));
    assert_eq!((t.grid_x, t.grid_y, t.is_spawning), (5, 6, true));
    cursor_moved(&mut t, None);
    assert_eq!((t.grid_x, t.grid_y, t.is_spawning), (5, 6, false));
}

#[test]
fn tools_place_their_behaviors() {
    assert_eq!(tool_behavior(Tool::Concrete), Behavior::Static);
    assert_eq!(tool_behavior(Tool::Sand), Behavior::Solid);
    assert_eq!(tool_behavior(Tool::Water), Behavior::Liquid);
}

#[test]
fn brush_fills_its_square_column_by_column() {
    let mut w = World::new(config());
    let colors = palette(9);
    spawn_particle(&mut w, &tool(Tool::Water, 1, 3, 3), &colors);
    for x in 0..8 {
        for y in 0..8 {
            let inside = (2..=4).contains(&x) && (2..=4).contains(&y);
            assert_eq!(w.grid().get(x, y).is_some(), inside);
        }
    }
    // k-th cell: x = 2 + k / 3, y = 2 + k % 3
    let h = w.grid().get(3, 2).unwrap();
    let r = w.particle(h).unwrap();
    assert_eq!(r.color, shade(103));
    assert_eq!(r.particle.behavior, Behavior::Liquid);
    assert_eq!(r.particle.v, 0);
    let h = w.grid().get(4, 4).unwrap();
    assert_eq!(w.particle(h).unwrap().color, shade(108));
}

#[test]
fn brush_does_not_overwrite_and_eraser_clears() {
    let mut w = World::new(config());
    assert!(w.spawn(0, 0, Behavior::Static, shade(1)));
    let first = w.grid().get(0, 0).unwrap();
    spawn_particle(&mut w, &tool(Tool::Sand, 1, 0, 0), &palette(9));
    assert_eq!(w.grid().get(0, 0), Some(first));
    assert_eq!(w.particle(first).unwrap().color, shade(1));
    // the brush wraps round the corner
    assert!(w.grid().get(7, 7).is_some());
    assert!(w.grid().get(1, 1).is_some());
    assert!(w.grid().get(2, 2).is_none());
    spawn_particle(&mut w, &tool(Tool::Eraser, 0, 7, 7), &Vec::new());
    assert!(w.grid().get(7, 7).is_none());
    assert!(w.grid().get(0, 0).is_some());
    spawn_particle(&mut w, &tool(Tool::Eraser, 1, 0, 0), &Vec::new());
    for x in 0..8 {
        for y in 0..8 {
            assert!(w.grid().get(x, y).is_none());
        }
    }
}

#[test]
fn brush_idle_without_button_or_tool() {
    let mut w = World::new(config());
    let mut t = tool(Tool::Sand, 2, 4, 4);
    t.is_spawning = false;
    spawn_particle(&mut w, &t, &palette(25));
    let t2 = tool(Tool::NoTool, 2, 4, 4);
    spawn_particle(&mut w, &t2, &Vec::new());
    for x in 0..8 {
        for y in 0..8 {
            assert!(w.grid().get(x, y).is_none());
        }
    }
}

#[test]
fn shading_halves_color_under_the_brush() {
    let mut w = World::new(config());
    assert!(w.spawn(2, 2, Behavior::Static, Rgba { r: 200, g: 101, b: 7, a: 255 }));
    let mut data = w.read_color_buffer().to_vec();
    shade_brush(w.grid(), &tool(Tool::Sand, 0, 2, 2), &mut data);
    let o = w.grid().texture_offset((2, 2));
    assert_eq!(&data[o..o + 4], &[100, 50, 3, 255]);
    let o2 = w.grid().texture_offset((3, 2));
    assert_eq!(&data[o2..o2 + 4], &[9, 9, 9, 255]);
    let mut data = w.read_color_buffer().to_vec();
    shade_brush(w.grid(), &tool(Tool::NoTool, 0, 2, 2), &mut data);
    assert_eq!(&data[..], w.read_color_buffer());
}

#[test]
fn shading_a_brush_wider_than_the_field_darkens_twice() {
    let cfg = Config { width: 2, height: 2, sub: 1, gravity: 1, max_v: 1, background: shade(200) };
    let w = World::new(cfg);
    let mut data = w.read_color_buffer().to_vec();
    // a 3 by 3 brush round (0, 0) on a 2 by 2 field covers (0, 0) once,
    // (0, 1) twice and (1, 1) four times
    shade_brush(w.grid(), &tool(Tool::Sand, 1, 0, 0), &mut data);
    let o = w.grid().texture_offset((0, 0));
    assert_eq!(&data[o..o + 4], &[100, 100, 100, 255]);
    let o = w.grid().texture_offset((0, 1));
    assert_eq!(&data[o..o + 4], &[50, 50, 50, 255]);
    let o = w.grid().texture_offset((1, 1));
    assert_eq!(&data[o..o + 4], &[12, 12, 12, 255]);
}

#[test]
fn negative_brush_radius_covers_nothing() {
    let mut w = World::new(config());
    spawn_particle(&mut w, &tool(Tool::Sand, -1, 3, 3), &Vec::new());
    assert!(w.grid().occupied().is_empty());
    let mut data = w.read_color_buffer().to_vec();
    shade_brush(w.grid(), &tool(Tool::Sand, -2, 3, 3), &mut data);
    assert_eq!(&data[..], w.read_color_buffer());
}

#[test]
fn brush_places_particles_centred_on_their_cells() {
    let cfg = Config { width: 8, height: 8, sub: 10, gravity: 1, max_v: 5, background: bg() };
    let mut w = World::new(cfg);
    spawn_particle(&mut w, &tool(Tool::Sand, 1, 0, 5), &palette(9));
    // the brush column x = -1 wraps to x = 7
    let h = w.grid().get(7, 4).unwrap();
    let r = w.particle(h).unwrap();
    assert_eq!(r.position, sandfall::physics::Position::new(70, 40));
    assert_eq!(r.color, shade(100));
    let h = w.grid().get(1, 6).unwrap();
    assert_eq!(w.particle(h).unwrap().position, sandfall::physics::Position::new(10, 60));
}

#[test]
fn eraser_keeps_particles_outside_the_brush() {
    let mut w = World::new(config());
    assert!(w.spawn(1, 1, Behavior::Solid, shade(1)));
    assert!(w.spawn(6, 6, Behavior::Liquid, shade(2)));
    let outside = w.grid().get(6, 6).unwrap();
    let before = w.particle(outside).unwrap();
    let o = w.grid().texture_offset((6, 6));
    let pixel_before = w.read_color_buffer()[o..o + 4].to_vec();
    spawn_particle(&mut w, &tool(Tool::Eraser, 1, 1, 1), &Vec::new());
    assert!(w.grid().get(1, 1).is_none());
    assert_eq!(w.grid().get(6, 6), Some(outside));
    assert_eq!(w.particle(outside).unwrap(), before);
    assert_eq!(&w.read_color_buffer()[o..o + 4], &pixel_before[..]);
}

#[test]
fn tool_colors_come_from_the_tool_palette() {
    assert_eq!(tool_color(Tool::Concrete, 7), Rgba { r: 148, g: 153, b: 151, a: 255 });
    assert_eq!(tool_color(Tool::Water, 0), Rgba { r: 53, g: 148, b: 189, a: 255 });
    assert_eq!(tool_color(Tool::Water, 3), Rgba { r: 76, g: 171, b: 207, a: 255 });
    assert_eq!(tool_color(Tool::Sand, 4), Rgba { r: 243, g: 227, b: 127, a: 255 });
    assert_eq!(tool_color(Tool::Sand, 5), Rgba { r: 235, g: 232, b: 184, a: 255 });
    assert_eq!(tool_color(Tool::Sand, usize::MAX), tool_color(Tool::Sand, usize::MAX % 3));
}
