use sandfall::grid::{Handle, Rgba};
use sandfall::physics::{
    cell_of_position, find_obstacle, plan_move, wrap_position, Behavior, Config, Particle,
    Position, DEFAULT_GRAVITY, DEFAULT_MAX_V, DEFAULT_SUB,
};
use sandfall::world::{grid_update, World};

fn bg() -> Rgba {
    Rgba { r: 9, g: 9, b: 9, a: 255 }
}

fn sand() -> Rgba {
    Rgba { r: 240, g: 200, b: 130, a: 255 }
}

fn water() -> Rgba {
    Rgba { r: 50, g: 150, b: 190, a: 255 }
}

fn stone() -> Rgba {
    Rgba { r: 150, g: 150, b: 150, a: 255 }
}

/// A field where gravity adds one cell per tick and the limit is one cell
/// per tick.
fn unit_config(width: usize, height: usize) -> Config {
    Config { width, height, sub: 1, gravity: 1, max_v: 1, background: bg() }
}

fn at(w: &World, x: i32, y: i32) -> Option<Handle> {
    w.grid().get(x, y)
}

fn color_at(w: &World, x: usize, y: usize) -> [u8; 4] {
    let o = w.grid().texture_offset((x, y));
    let b = w.read_color_buffer();
    [b[o], b[o + 1], b[o + 2], b[o + 3]]
}

/// Every occupied cell names a distinct live particle whose position names
/// that cell and whose color the buffer shows; every empty cell shows the
/// background.
fn assert_consistent(w: &World) {
    let cfg = w.config();
    let mut seen: Vec<Handle> = Vec::new();
    for x in 0..cfg.width {
        for y in 0..cfg.height {
            match at(w, x as i32, y as i32) {
                None => {
                    let c = cfg.background;
                    assert_eq!(color_at(w, x, y), [c.r, c.g, c.b, c.a]);
                }
                Some(h) => {
                    assert!(!seen.contains(&h), "handle {:?} in two cells", h);
                    seen.push(h);
                    let r = w.particle(h).expect("live particle");
                    let c = r.color;
                    assert_eq!(color_at(w, x, y), [c.r, c.g, c.b, c.a]);
                    let cx = cell_of_position(r.position.x, cfg.sub).rem_euclid(cfg.width as i64);
                    let cy = cell_of_position(r.position.y, cfg.sub).rem_euclid(cfg.height as i64);
                    assert_eq!((cx, cy), (x as i64, y as i64));
                }
            }
        }
    }
}

#[test]
fn default_config_values() {
    let c = Config::default();
    assert_eq!((c.width, c.height), (200, 200));
    assert_eq!(c.sub, DEFAULT_SUB);
    assert_eq!((c.sub, c.gravity, c.max_v), (60, 2, 480));
    assert_eq!(DEFAULT_GRAVITY, 2);
    assert_eq!(DEFAULT_MAX_V, 8 * DEFAULT_SUB);
    let p = Particle::default();
    assert_eq!(p.behavior, Behavior::Static);
    assert_eq!(p.v, 0);
    assert_eq!(Position::default(), Position::new(0, 0));
}

#[test]
fn cell_of_position_rounds_to_nearest_halves_up() {
    assert_eq!(cell_of_position(0, 60), 0);
    assert_eq!(cell_of_position(29, 60), 0);
    assert_eq!(cell_of_position(30, 60), 1);
    assert_eq!(cell_of_position(89, 60), 1);
    assert_eq!(cell_of_position(-30, 60), 0);
    assert_eq!(cell_of_position(-31, 60), -1);
    assert_eq!(cell_of_position(-90, 60), -1);
    assert_eq!(cell_of_position(-91, 60), -2);
    assert_eq!(cell_of_position(7, 1), 7);
    assert_eq!(cell_of_position(-7, 1), -7);
}

#[test]
fn position_wraps_across_either_edge() {
    // a field 10 cells wide at 10 units per cell: x = width + 0.3 becomes 0.3
    assert_eq!(wrap_position(103, 100), 3);
    assert_eq!(wrap_position(-3, 100), 97);
    assert_eq!(wrap_position(100, 100), 100);
    assert_eq!(wrap_position(0, 100), 0);
    assert_eq!(wrap_position(42, 100), 42);
}

#[test]
fn find_obstacle_reports_highest_occupied_row() {
    let mut w = World::new(unit_config(5, 10));
    assert!(w.spawn(2, 1, Behavior::Static, stone()));
    assert!(w.spawn(2, 4, Behavior::Static, stone()));
    assert_eq!(find_obstacle(w.grid(), 2, 0, 8), Some(4));
    assert_eq!(find_obstacle(w.grid(), 2, 0, 4), Some(1));
    assert_eq!(find_obstacle(w.grid(), 2, 2, 4), None);
    assert_eq!(find_obstacle(w.grid(), 3, 0, 10), None);
    assert_eq!(find_obstacle(w.grid(), 2, 5, 5), None);
    // rows wrap: row -6 is row 4
    assert_eq!(find_obstacle(w.grid(), 2, -7, -5), Some(-6));
}

#[test]
fn plan_move_free_fall_accelerates() {
    let cfg = Config::default();
    let w = World::new(cfg);
    let m = plan_move(&cfg, w.grid(), Behavior::Solid, -10, Position::new(600, 6000));
    assert_eq!(m.v, -12);
    assert_eq!(m.position, Position::new(600, 5988));
    assert_eq!((m.source_x, m.source_y), (10, 100));
    assert_eq!((m.dest_x, m.dest_y), (10, 100));
    // clamped at the limit
    let m = plan_move(&cfg, w.grid(), Behavior::Solid, -479, Position::new(600, 6000));
    assert_eq!(m.v, -480);
    assert_eq!(m.position.y, 5520);
    assert_eq!((m.dest_x, m.dest_y), (10, 92));
}

#[test]
fn plan_move_free_fall_wraps_below_the_floor() {
    let cfg = unit_config(10, 10);
    let w = World::new(cfg);
    let m = plan_move(&cfg, w.grid(), Behavior::Solid, -1, Position::new(5, 0));
    assert_eq!((m.dest_x, m.dest_y), (5, -1));
    assert_eq!(m.position, Position::new(5, 9));
    assert_eq!(m.v, -1);
}

#[test]
fn plan_move_slips_diagonally_left_then_right() {
    let cfg = unit_config(10, 10);
    let mut w = World::new(cfg);
    assert!(w.spawn(5, 2, Behavior::Static, stone()));
    let m = plan_move(&cfg, w.grid(), Behavior::Solid, 0, Position::new(5, 3));
    assert_eq!((m.dest_x, m.dest_y), (4, 2));
    assert_eq!(m.v, -1);
    assert_eq!(m.position, Position::new(4, 2));
    assert!(w.spawn(4, 2, Behavior::Static, stone()));
    let m = plan_move(&cfg, w.grid(), Behavior::Solid, 0, Position::new(5, 3));
    assert_eq!((m.dest_x, m.dest_y), (6, 2));
    assert_eq!(m.v, -1);
}

#[test]
fn plan_move_diagonal_slip_snaps_to_wrapped_cell() {
    let cfg = unit_config(10, 10);
    let mut w = World::new(cfg);
    assert!(w.spawn(0, 2, Behavior::Static, stone()));
    let m = plan_move(&cfg, w.grid(), Behavior::Solid, 0, Position::new(0, 3));
    assert_eq!((m.dest_x, m.dest_y), (-1, 2));
    assert_eq!(m.position, Position::new(9, 2));
}

#[test]
fn isolated_solid_falls_faster_each_tick_until_the_limit() {
    let mut w = World::default();
    assert!(w.spawn(100, 150, Behavior::Solid, sand()));
    let h = at(&w, 100, 150).unwrap();
    let mut last = w.particle(h).unwrap();
    for _ in 0..40 {
        grid_update(&mut w);
        let now = w.particle(h).unwrap();
        assert!(now.particle.v.abs() >= last.particle.v.abs());
        assert!(now.particle.v.abs() <= DEFAULT_MAX_V);
        assert!(now.position.y < last.position.y);
        assert_eq!(now.particle.v, last.particle.v - DEFAULT_GRAVITY);
        last = now;
    }
    assert_eq!(last.particle.v, -80);
    assert_eq!(last.position.y, 150 * 60 - 2 * (40 * 41 / 2));
    assert_consistent(&w);
}

#[test]
fn velocity_is_clamped_at_the_limit() {
    let cfg = Config { width: 4, height: 100, sub: 10, gravity: 4, max_v: 10, background: bg() };
    let mut w = World::new(cfg);
    assert!(w.spawn(1, 90, Behavior::Solid, sand()));
    let h = at(&w, 1, 90).unwrap();
    let mut vs = Vec::new();
    for _ in 0..5 {
        grid_update(&mut w);
        vs.push(w.particle(h).unwrap().particle.v);
    }
    assert_eq!(vs, vec![-4, -8, -10, -10, -10]);
    assert_eq!(w.particle(h).unwrap().position.y, 900 - 42);
}

#[test]
fn solid_on_a_blocked_row_comes_to_rest() {
    let mut w = World::new(unit_config(10, 10));
    for x in 4..7 {
        assert!(w.spawn(x, 2, Behavior::Static, stone()));
    }
    assert!(w.spawn(5, 5, Behavior::Solid, sand()));
    let h = at(&w, 5, 5).unwrap();
    grid_update(&mut w);
    assert_eq!(at(&w, 5, 4), Some(h));
    grid_update(&mut w);
    assert_eq!(at(&w, 5, 3), Some(h));
    grid_update(&mut w);
    assert_eq!(at(&w, 5, 3), Some(h));
    assert_eq!(w.particle(h).unwrap().particle.v, 0);
    assert_eq!(w.particle(h).unwrap().position, Position::new(5, 3));
    for _ in 0..5 {
        grid_update(&mut w);
        assert_eq!(at(&w, 5, 3), Some(h));
        assert_eq!(w.particle(h).unwrap().particle.v, 0);
    }
    assert_consistent(&w);
}

#[test]
fn static_particles_never_move() {
    let mut w = World::new(unit_config(6, 6));
    assert!(w.spawn(2, 4, Behavior::Static, stone()));
    let h = at(&w, 2, 4).unwrap();
    for _ in 0..10 {
        grid_update(&mut w);
    }
    assert_eq!(at(&w, 2, 4), Some(h));
    assert_eq!(w.particle(h).unwrap().particle.v, 0);
}

#[test]
fn liquid_in_a_blocked_channel_flows_sideways() {
    let mut w = World::new(unit_config(11, 10));
    for x in 4..7 {
        assert!(w.spawn(x, 0, Behavior::Static, stone()));
    }
    assert!(w.spawn(4, 1, Behavior::Static, stone()));
    assert!(w.spawn(6, 1, Behavior::Static, stone()));
    assert!(w.spawn(5, 3, Behavior::Liquid, water()));
    assert!(w.spawn(5, 5, Behavior::Liquid, water()));
    let a = at(&w, 5, 3).unwrap();
    let b = at(&w, 5, 5).unwrap();
    for _ in 0..3 {
        grid_update(&mut w);
    }
    assert_eq!(at(&w, 5, 1), Some(a));
    assert_eq!(at(&w, 5, 2), Some(b));
    grid_update(&mut w);
    assert_eq!(at(&w, 5, 1), Some(a));
    assert_eq!(at(&w, 4, 2), Some(b));
    assert_eq!(w.particle(b).unwrap().particle.v, 0);
    assert_eq!(w.particle(b).unwrap().position, Position::new(4, 2));
    assert_consistent(&w);
}

#[test]
fn solid_does_not_flow_sideways() {
    let mut w = World::new(unit_config(11, 10));
    for x in 4..7 {
        assert!(w.spawn(x, 0, Behavior::Static, stone()));
    }
    assert!(w.spawn(4, 1, Behavior::Static, stone()));
    assert!(w.spawn(6, 1, Behavior::Static, stone()));
    assert!(w.spawn(5, 1, Behavior::Solid, sand()));
    assert!(w.spawn(5, 3, Behavior::Solid, sand()));
    let b = at(&w, 5, 3).unwrap();
    for _ in 0..6 {
        grid_update(&mut w);
    }
    assert_eq!(at(&w, 5, 2), Some(b));
    assert_eq!(w.particle(b).unwrap().particle.v, 0);
}

#[test]
fn end_to_end_fall_and_toroidal_wrap() {
    let mut w = World::new(unit_config(10, 10));
    assert!(w.spawn(5, 9, Behavior::Solid, sand()));
    let h = at(&w, 5, 9).unwrap();
    for _ in 0..9 {
        grid_update(&mut w);
    }
    assert_eq!(at(&w, 5, 0), Some(h));
    assert_eq!(w.particle(h).unwrap().position, Position::new(5, 0));
    // no floor: the tenth tick carries it across the bottom edge to the top row
    grid_update(&mut w);
    assert_eq!(at(&w, 5, 0), None);
    assert_eq!(at(&w, 5, 9), Some(h));
    assert_eq!(w.particle(h).unwrap().position, Position::new(5, 9));
    assert_eq!(w.particle(h).unwrap().particle.v, -1);
    assert_consistent(&w);
}
