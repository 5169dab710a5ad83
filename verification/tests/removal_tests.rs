use voxxel_engine::lighting::lighting_world::LightingWorld;
use voxxel_engine::lighting::lightmap::Lightmap;
use voxxel_engine::lighting::propagation::{propagate, propagate_sky};
use voxxel_engine::lighting::removal::{unpropagate, unpropagate_sky};
use voxxel_engine::physics::coordinates::Coordinates;

/// A box of voxels with one opacity per voxel; everything outside is opaque.
struct Chunk {
    lm: Lightmap,
    opacity: Vec<u8>,
}

impl Chunk {
    fn open(w: u32, h: u32, d: u32) -> Chunk {
        Chunk { lm: Lightmap::new(w, h, d), opacity: vec![0; (w * h * d) as usize] }
    }

    fn inside(&self, c: Coordinates) -> bool {
        c.x >= 0 && c.x < self.lm.width as i32
            && c.y >= 0 && c.y < self.lm.height as i32
            && c.z >= 0 && c.z < self.lm.depth as i32
    }

    fn set_opacity(&mut self, x: u32, y: u32, z: u32, opacity: u8) {
        let idx = self.lm.index(x, y, z);
        self.opacity[idx] = opacity;
    }

    fn get(&self, x: u32, y: u32, z: u32) -> [u8; 3] {
        self.lm.get(x, y, z)
    }

    fn snapshot(&self) -> Vec<u8> {
        self.lm.as_bytes()
    }
}

impl LightingWorld for Chunk {
    fn wf(&self) -> bool {
        true
    }

    fn contains(&self, cords: Coordinates) -> bool {
        self.inside(cords)
    }

    fn opacity_at(&self, cords: Coordinates) -> u8 {
        self.get_opacity(cords)
    }

    fn light_at(&self, cords: Coordinates) -> [u8; 3] {
        self.get_light(cords)
    }

    fn lemma_outside_is_opaque(&self, _cords: Coordinates) {}

    fn get_opacity(&self, cords: Coordinates) -> u8 {
        if !self.inside(cords) {
            return 255;
        }
        self.opacity[self.lm.index(cords.x as u32, cords.y as u32, cords.z as u32)]
    }

    fn get_light(&self, cords: Coordinates) -> [u8; 3] {
        if !self.inside(cords) {
            return [0, 0, 0];
        }
        self.lm.get(cords.x as u32, cords.y as u32, cords.z as u32)
    }

    fn set_light(&mut self, cords: Coordinates, color: [u8; 3]) {
        if self.inside(cords) {
            self.lm.set(cords.x as u32, cords.y as u32, cords.z as u32, color);
        }
    }
}

fn at(x: i32, y: i32, z: i32) -> Coordinates {
    Coordinates::new(x, y, z)
}

#[test]
fn unpropagate_single_source_returns_to_dark() {
    let mut world = Chunk::open(5, 5, 5);
    propagate(&mut world, &[(at(2, 2, 2), [255, 128, 64])], 17);
    assert_eq!(world.get(4, 2, 2), [221, 94, 30]);

    unpropagate(&mut world, &[at(2, 2, 2)], 17);

    assert_eq!(world.snapshot(), vec![0u8; 5 * 5 * 5 * 3]);
}

#[test]
fn unpropagate_single_source_without_attenuation_returns_to_dark() {
    let mut world = Chunk::open(4, 3, 2);
    propagate(&mut world, &[(at(1, 1, 1), [9, 0, 200])], 0);
    assert_eq!(world.get(3, 2, 0), [9, 0, 200]);

    unpropagate(&mut world, &[at(1, 1, 1)], 0);

    assert_eq!(world.snapshot(), vec![0u8; 4 * 3 * 2 * 3]);
}

#[test]
fn unpropagate_single_source_through_semi_opaque_returns_to_dark() {
    let mut world = Chunk::open(6, 1, 1);
    world.set_opacity(2, 0, 0, 30);
    world.set_opacity(4, 0, 0, 255);
    propagate(&mut world, &[(at(0, 0, 0), [255, 255, 255])], 17);
    assert_eq!(world.get(2, 0, 0), [191, 191, 191]);
    assert_eq!(world.get(3, 0, 0), [174, 174, 174]);
    assert_eq!(world.get(4, 0, 0), [0, 0, 0]);

    unpropagate(&mut world, &[at(0, 0, 0)], 17);

    assert_eq!(world.snapshot(), vec![0u8; 6 * 3]);
}

#[test]
fn unpropagate_leaves_the_light_of_the_other_source() {
    // Red at one end of a corridor, blue at the other, too far apart for
    // their light to meet; the red one is removed.
    let mut world = Chunk::open(9, 1, 1);
    propagate(
        &mut world,
        &[(at(0, 0, 0), [250, 0, 0]), (at(8, 0, 0), [0, 0, 250])],
        70,
    );
    assert_eq!(world.get(3, 0, 0), [40, 0, 0]);
    assert_eq!(world.get(4, 0, 0), [0, 0, 0]);
    assert_eq!(world.get(5, 0, 0), [0, 0, 40]);

    unpropagate(&mut world, &[at(0, 0, 0)], 70);

    let mut blue_only = Chunk::open(9, 1, 1);
    propagate(&mut blue_only, &[(at(8, 0, 0), [0, 0, 250])], 70);
    assert_eq!(world.snapshot(), blue_only.snapshot());
    assert_eq!(world.get(0, 0, 0), [0, 0, 0]);
    assert_eq!(world.get(8, 0, 0), [0, 0, 250]);
}

#[test]
fn unpropagate_keeps_light_mixed_with_another_source() {
    // Red and blue overlap along the whole corridor. The neighbour of the
    // red source also holds blue, so its light is not what the red source
    // alone would have handed it: it is kept, and refills the source's voxel.
    let mut world = Chunk::open(9, 1, 1);
    propagate(
        &mut world,
        &[(at(0, 0, 0), [250, 0, 0]), (at(8, 0, 0), [0, 0, 250])],
        20,
    );
    assert_eq!(world.get(0, 0, 0), [250, 0, 90]);
    assert_eq!(world.get(1, 0, 0), [230, 0, 110]);
    assert_eq!(world.get(4, 0, 0), [170, 0, 170]);
    let mut expected = world.snapshot();

    unpropagate(&mut world, &[at(0, 0, 0)], 20);

    expected[0] = 210;
    expected[1] = 0;
    expected[2] = 90;
    assert_eq!(world.snapshot(), expected);
}

#[test]
fn unpropagate_refills_from_a_dimmer_neighbouring_source() {
    // A bright and a dim white light two voxels apart: the dim one is
    // drowned out until the bright one goes.
    let mut world = Chunk::open(7, 1, 1);
    propagate(
        &mut world,
        &[(at(1, 0, 0), [200, 200, 200]), (at(3, 0, 0), [100, 100, 100])],
        10,
    );
    assert_eq!(world.get(3, 0, 0), [180, 180, 180]);

    unpropagate(&mut world, &[at(1, 0, 0)], 10);

    // The voxel of the dim light held the bright light's value, which was
    // retracted with it; what remains nearby is dark.
    assert_eq!(world.get(1, 0, 0), [0, 0, 0]);
    assert_eq!(world.get(2, 0, 0), [0, 0, 0]);
    assert_eq!(world.get(3, 0, 0), [0, 0, 0]);
}

#[test]
fn unpropagate_refills_from_a_lit_opaque_block() {
    // A glowing opaque block next to a brighter lamp in open air.
    let mut world = Chunk::open(5, 1, 1);
    world.set_opacity(0, 0, 0, 255);
    propagate(&mut world, &[(at(0, 0, 0), [120, 120, 120])], 10);
    assert_eq!(world.get(1, 0, 0), [110, 110, 110]);
    propagate(&mut world, &[(at(2, 0, 0), [240, 240, 240])], 10);
    assert_eq!(world.get(0, 0, 0), [120, 120, 120]);
    assert_eq!(world.get(1, 0, 0), [230, 230, 230]);

    unpropagate(&mut world, &[at(2, 0, 0)], 10);

    // The lamp's light is gone and the block's light has flowed back.
    assert_eq!(world.get(0, 0, 0), [120, 120, 120]);
    assert_eq!(world.get(1, 0, 0), [110, 110, 110]);
    assert_eq!(world.get(2, 0, 0), [100, 100, 100]);
    assert_eq!(world.get(3, 0, 0), [90, 90, 90]);
    assert_eq!(world.get(4, 0, 0), [80, 80, 80]);
}

#[test]
fn unpropagate_without_seeds_changes_nothing() {
    let mut world = Chunk::open(3, 3, 3);
    propagate(&mut world, &[(at(1, 1, 1), [90, 60, 30])], 25);
    let before = world.snapshot();

    unpropagate(&mut world, &[], 25);

    assert_eq!(world.snapshot(), before);
}

#[test]
fn unpropagate_seed_outside_the_world_changes_nothing() {
    let mut world = Chunk::open(3, 3, 3);
    propagate(&mut world, &[(at(1, 1, 1), [90, 60, 30])], 25);
    let before = world.snapshot();

    unpropagate(&mut world, &[at(40, 1, 1), at(-7, 0, 0)], 25);

    assert_eq!(world.snapshot(), before);
}

#[test]
fn unpropagate_seed_named_twice_is_removed_once() {
    let mut world = Chunk::open(5, 1, 1);
    propagate(&mut world, &[(at(2, 0, 0), [60, 60, 60])], 20);

    unpropagate(&mut world, &[at(2, 0, 0), at(2, 0, 0)], 20);

    assert_eq!(world.snapshot(), vec![0u8; 5 * 3]);
}

#[test]
fn unpropagate_at_the_edge_of_the_coordinate_range_terminates() {
    let mut world = Chunk::open(2, 2, 2);
    let corner = at(i32::MAX, i32::MIN, i32::MAX);
    propagate(&mut world, &[(corner, [255, 255, 255])], 1);
    unpropagate(&mut world, &[corner], 1);
    assert_eq!(world.snapshot(), vec![0u8; 2 * 2 * 2 * 3]);
}

#[test]
fn unpropagate_sky_shades_the_column_below_a_placed_block() {
    let mut world = Chunk::open(3, 5, 3);
    propagate_sky(&mut world, at(0, 0, 0), at(2, 4, 2), [200, 200, 180], 17);
    assert_eq!(world.get(1, 0, 1), [200, 200, 180]);

    // A block is placed at the top of the middle column.
    world.set_opacity(1, 4, 1, 255);
    world.set_light(at(1, 4, 1), [0, 0, 0]);
    unpropagate_sky(&mut world, at(1, 4, 1), 17);

    // The column below lost its direct sky light and is lit from the side.
    for y in 0..4 {
        assert_eq!(world.get(1, y, 1), [183, 183, 163], "y={y}");
    }
    assert_eq!(world.get(1, 4, 1), [0, 0, 0]);
    // The columns around it still see the sky.
    assert_eq!(world.get(0, 2, 1), [200, 200, 180]);
    assert_eq!(world.get(2, 4, 2), [200, 200, 180]);
}

#[test]
fn unpropagate_sky_stops_at_the_first_opaque_voxel() {
    let mut world = Chunk::open(1, 6, 1);
    world.set_opacity(0, 2, 0, 255);
    // Light above and below a floor at y=2.
    for y in [0u32, 1, 3, 4] {
        world.lm.set(0, y, 0, [50, 50, 50]);
    }

    unpropagate_sky(&mut world, at(0, 5, 0), 17);

    assert_eq!(world.get(0, 4, 0), [0, 0, 0]);
    assert_eq!(world.get(0, 3, 0), [0, 0, 0]);
    // Below the floor nothing was touched.
    assert_eq!(world.get(0, 1, 0), [50, 50, 50]);
    assert_eq!(world.get(0, 0, 0), [50, 50, 50]);
}

#[test]
fn unpropagate_sky_stops_at_the_first_unlit_voxel() {
    let mut world = Chunk::open(1, 6, 1);
    world.lm.set(0, 4, 0, [50, 50, 50]);
    world.lm.set(0, 1, 0, [80, 80, 80]);

    unpropagate_sky(&mut world, at(0, 5, 0), 17);

    assert_eq!(world.get(0, 4, 0), [0, 0, 0]);
    // The walk ended at the unlit voxel at y=3; the light further down stays,
    // and spreads no further than it had.
    assert_eq!(world.get(0, 1, 0), [80, 80, 80]);
    assert_eq!(world.get(0, 2, 0), [0, 0, 0]);
}

#[test]
fn unpropagate_sky_below_the_lowest_coordinate_collects_nothing() {
    let mut world = Chunk::open(2, 2, 2);
    world.lm.set(0, 0, 0, [9, 9, 9]);
    let before = world.snapshot();

    unpropagate_sky(&mut world, at(0, i32::MIN, 0), 17);

    assert_eq!(world.snapshot(), before);
}
