use sandfall::grid::{Handle, Rgba};
use sandfall::physics::{Behavior, Config, Particle, Position};
use sandfall::world::{grid_update, Record, World};

fn bg() -> Rgba {
    Rgba { r: 9, g: 9, b: 9, a: 255 }
}

fn red() -> Rgba {
    Rgba { r: 200, g: 0, b: 0, a: 255 }
}

fn blue() -> Rgba {
    Rgba { r: 0, g: 0, b: 200, a: 255 }
}

fn config() -> Config {
    Config { width: 8, height: 6, sub: 10, gravity: 3, max_v: 20, background: bg() }
}

fn color_at(w: &World, x: usize, y: usize) -> [u8; 4] {
    let o = w.grid().texture_offset((x, y));
    let b = w.read_color_buffer();
    [b[o], b[o + 1], b[o + 2], b[o + 3]]
}

#[test]
fn spawn_places_a_particle_at_rest() {
    let mut w = World::new(config());
    assert!(w.spawn(-1, 7, Behavior::Solid, red()));
    let h = w.grid().get(7, 1).unwrap();
    let r = w.particle(h).unwrap();
    assert_eq!(
        r,
        Record {
            particle: Particle { behavior: Behavior::Solid, v: 0 },
            position: Position::new(70, 10),
            color: red(),
        }
    );
    assert_eq!(color_at(&w, 7, 1), [200, 0, 0, 255]);
    assert_eq!(w.read_color_buffer().len(), 8 * 6 * 4);
}

#[test]
fn spawn_on_occupied_cell_is_refused() {
    let mut w = World::new(config());
    assert!(w.spawn(3, 3, Behavior::Solid, red()));
    let h = w.grid().get(3, 3).unwrap();
    let before = w.read_color_buffer().to_vec();
    assert!(!w.spawn(3, 3, Behavior::Liquid, blue()));
    assert!(!w.spawn(11, -3, Behavior::Static, blue()));
    assert_eq!(w.grid().get(3, 3), Some(h));
    assert_eq!(w.particle(h).unwrap().color, red());
    assert_eq!(w.particle(h).unwrap().particle.behavior, Behavior::Solid);
    assert_eq!(w.read_color_buffer(), &before[..]);
}

#[test]
fn erase_clears_cell_and_record() {
    let mut w = World::new(config());
    assert!(w.spawn(2, 2, Behavior::Static, red()));
    let h = w.grid().get(2, 2).unwrap();
    assert_eq!(w.erase(10, 8), Some(h));
    assert_eq!(w.grid().get(2, 2), None);
    assert_eq!(w.particle(h), None);
    assert_eq!(color_at(&w, 2, 2), [9, 9, 9, 255]);
    assert_eq!(w.erase(2, 2), None);
}

#[test]
fn erased_slot_is_reused_under_a_new_generation() {
    let mut w = World::new(config());
    assert!(w.spawn(1, 1, Behavior::Static, red()));
    let old = w.grid().get(1, 1).unwrap();
    w.erase(1, 1);
    assert!(w.spawn(4, 4, Behavior::Static, blue()));
    let new = w.grid().get(4, 4).unwrap();
    assert_eq!(new.index, old.index);
    assert_ne!(new.generation, old.generation);
    assert_eq!(w.particle(old), None);
    assert_eq!(w.particle(new).unwrap().color, blue());
    assert_eq!(w.particle(Handle { index: 99, generation: 0 }), None);
}

#[test]
fn many_particles_keep_one_per_cell() {
    let mut w = World::new(config());
    let mut n = 0;
    for x in 0..8 {
        for y in 2..6 {
            let b = if (x + y) % 3 == 0 { Behavior::Liquid } else { Behavior::Solid };
            if w.spawn(x, y, b, if x % 2 == 0 { red() } else { blue() }) {
                n += 1;
            }
        }
    }
    assert!(w.spawn(0, 0, Behavior::Static, bg()));
    for _ in 0..30 {
        grid_update(&mut w);
    }
    let mut seen = Vec::new();
    for x in 0..8 {
        for y in 0..6 {
            if let Some(h) = w.grid().get(x, y) {
                assert!(!seen.contains(&h));
                seen.push(h);
                let c = w.particle(h).unwrap().color;
                assert_eq!(color_at(&w, x as usize, y as usize), [c.r, c.g, c.b, c.a]);
            } else {
                assert_eq!(color_at(&w, x as usize, y as usize), [9, 9, 9, 255]);
            }
        }
    }
    assert_eq!(seen.len(), n + 1);
}
