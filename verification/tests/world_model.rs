use std::collections::HashMap;
use std::sync::Arc;
use stardust::data::GpuModel;
use stardust::math::{uvec3, UVec3};
use stardust::voxel::Voxel;
use stardust::world::World;

struct Lcg(u64);

impl Lcg {
    fn next(&mut self, below: u32) -> u32 {
        self.0 = self.0.wrapping_mul(6364136223846793005).wrapping_add(1442695040888963407);
        ((self.0 >> 33) as u32) % below
    }
}

fn region(rng: &mut Lcg) -> UVec3 {
    uvec3(240 + rng.next(40), rng.next(40), 4080 + rng.next(40))
}

fn every_position() -> Vec<UVec3> {
    let mut all = Vec::new();
    for x in 240..280 {
        for y in 0..40 {
            for z in 4080..4120 {
                all.push(uvec3(x, y, z));
            }
        }
    }
    all
}

fn check(w: &World, expected: &HashMap<(u32, u32, u32), u32>, pool: u32) {
    let mut bricks: HashMap<u32, (u32, u32, u32)> = HashMap::new();
    let mut occupied: HashMap<(u32, u32, u32), bool> = HashMap::new();
    for p in every_position() {
        let want = expected.get(&(p.x, p.y, p.z)).copied().unwrap_or(0);
        assert_eq!(w.voxel_at(p).0, want);
        let brick = w.layer_entry(p);
        let cell = (p.x / 16, p.y / 16, p.z / 16);
        if brick != 0 {
            assert!(brick <= pool);
            assert_eq!(*bricks.entry(brick).or_insert(cell), cell);
        }
        let seen = occupied.entry(cell).or_insert(false);
        *seen = *seen || want != 0;
    }
    for (cell, holds_voxel) in &occupied {
        let brick = w.layer_entry(uvec3(cell.0 * 16, cell.1 * 16, cell.2 * 16));
        assert_eq!(brick != 0, *holds_voxel);
    }
    assert_eq!(w.bricks_free() as usize + bricks.len(), pool as usize);
}

#[test]
fn random_writes_agree_with_a_map_of_positions() {
    let mut rng = Lcg(7);
    let mut w = World::with_pool_sizes(8, 64);
    let mut expected: HashMap<(u32, u32, u32), u32> = HashMap::new();
    for round in 0..12 {
        for _ in 0..300 {
            let p = region(&mut rng);
            let word = if rng.next(3) == 0 { 0 } else { 1 + rng.next(1000) };
            w.set_voxel(Voxel(word), p);
            if word == 0 {
                expected.remove(&(p.x, p.y, p.z));
            } else {
                expected.insert((p.x, p.y, p.z), word);
            }
        }
        if round % 4 == 3 {
            for p in every_position() {
                if p.x < 256 {
                    w.set_voxel(Voxel::empty(), p);
                    expected.remove(&(p.x, p.y, p.z));
                }
            }
        }
        w.process();
        check(&w, &expected, 64);
    }
    assert_eq!(w.layer0s_free(), 8 - 4);
}

#[test]
fn random_model_moves_agree_with_a_map_of_positions() {
    let mut rng = Lcg(99);
    let mut w = World::with_pool_sizes(8, 64);
    let mut voxels = Vec::new();
    for i in 0..40u32 {
        voxels.push((Voxel(5000 + i), uvec3(i % 5, (i / 5) % 4, i / 20)));
    }
    let m = Arc::new(GpuModel::from_voxels(String::from("block"), &voxels));
    let origin = |p: UVec3| uvec3(p.x.wrapping_sub(1024), p.y.wrapping_sub(1024), p.z.wrapping_sub(1024));
    let mut expected: HashMap<(u32, u32, u32), u32> = HashMap::new();
    let mut at = origin(uvec3(250, 10, 4090));
    w.update_model(Arc::clone(&m), at, at, false);
    for (v, p) in &voxels {
        expected.insert((p.x + 250, p.y + 10, p.z + 4090), v.0);
    }
    w.process();
    check(&w, &expected, 64);
    for _ in 0..10 {
        let target = uvec3(240 + rng.next(30), rng.next(30), 4080 + rng.next(30));
        let next = origin(target);
        w.update_model(Arc::clone(&m), at, next, false);
        for (_, p) in &voxels {
            let old = uvec3(at.x.wrapping_add(1024 + p.x), at.y.wrapping_add(1024 + p.y), at.z.wrapping_add(1024 + p.z));
            expected.remove(&(old.x, old.y, old.z));
        }
        for (v, p) in &voxels {
            expected.insert((target.x + p.x, target.y + p.y, target.z + p.z), v.0);
        }
        at = next;
        w.process();
        check(&w, &expected, 64);
    }
    w.update_model(Arc::clone(&m), at, at, true);
    w.process();
    expected.clear();
    check(&w, &expected, 64);
    assert_eq!(w.bricks_free(), 64);
}
