use swc_render::bvh::{first_hit, Aabb, BVH};
use swc_render::msaa::Msaa;
use swc_render::scene::{NotEditable, ObjectsScene};
use swc_render::vec::{coordinate_key, dot, maximum, minimum, Vec3};

fn v(x: i64, y: i64, z: i64) -> Vec3<i64> {
    Vec3::new(x, y, z)
}

#[test]
fn vec3_new_and_tuple() {
    let a = Vec3::new(1, 2, 3);
    assert_eq!(a.tuple(), (1, 2, 3));
}

#[test]
fn vec3_dot_products() {
    assert_eq!(dot(v(1, 2, 3), v(4, -5, 6)), 12);
    assert_eq!(v(1, 2, 3).dot(v(4, -5, 6)), 12);
    assert_eq!(v(-3, 4, 12).dot2(), 169);
}

#[test]
fn vec3_componentwise_extremes() {
    assert_eq!(maximum(v(1, 5, -2), v(3, 4, -7)), v(3, 5, -2));
    assert_eq!(minimum(v(1, 5, -2), v(3, 4, -7)), v(1, 4, -7));
}

#[test]
fn coordinate_keys_order_like_floats() {
    let xs = [-1e30f32, -2.5, -1.0, -0.0, 0.0, 1e-30, 0.5, 1.0, 3.25, 1e30];
    for a in xs {
        for b in xs {
            let ka = coordinate_key(a.to_bits());
            let kb = coordinate_key(b.to_bits());
            assert_eq!(a < b, ka < kb, "{a} {b}");
            assert_eq!(a == b, ka == kb, "{a} {b}");
        }
    }
    assert_eq!(coordinate_key((-0.0f32).to_bits()), 0);
}

#[test]
fn msaa_levels_from_counts() {
    assert_eq!(Msaa::try_from(1), Ok(Msaa::Disable));
    assert_eq!(Msaa::try_from(8), Ok(Msaa::Oct));
    assert_eq!(Msaa::try_from(27), Ok(Msaa::TwentySeven));
    assert_eq!(Msaa::try_from(64), Ok(Msaa::SixtyFour));
    assert!(Msaa::try_from(2).is_err());
    assert!(Msaa::try_from(0).is_err());
    assert!(Msaa::try_from(-8).is_err());
}

#[test]
fn msaa_single_sample_is_voxel_center() {
    let o = Msaa::Disable.offsets();
    assert_eq!(o, vec![Vec3::new(1u64, 1, 1)]);
    assert_eq!(Msaa::Disable.denominator(), 2);
}

#[test]
fn msaa_offsets_are_evenly_spaced() {
    for (m, k) in [(Msaa::Oct, 2u64), (Msaa::TwentySeven, 3), (Msaa::SixtyFour, 4)] {
        let o = m.offsets();
        assert_eq!(o.len(), m.sample_count());
        assert_eq!(o.len() as u64, k * k * k);
        assert_eq!(m.denominator(), k + 1);
        let mut all = o.clone();
        all.sort_by_key(|p| (p.x, p.y, p.z));
        all.dedup();
        assert_eq!(all.len() as u64, k * k * k);
        for p in &o {
            assert!(p.x >= 1 && p.x <= k && p.y >= 1 && p.y <= k && p.z >= 1 && p.z <= k);
        }
    }
    let o = Msaa::Oct.offsets();
    assert_eq!(o[0], Vec3::new(1, 1, 1));
    assert_eq!(o[1], Vec3::new(1, 1, 2));
    assert_eq!(o[2], Vec3::new(1, 2, 1));
    assert_eq!(o[7], Vec3::new(2, 2, 2));
}

fn cube(x: i64, y: i64, z: i64, s: i64) -> Aabb {
    Aabb { min: v(x, y, z), max: v(x + s, y + s, z + s) }
}

fn center(b: &Aabb) -> Vec3<i64> {
    v((b.min.x + b.max.x) / 2, (b.min.y + b.max.y) / 2, (b.min.z + b.max.z) / 2)
}

fn widest(b: Aabb) -> u8 {
    let (dx, dy, dz) = (b.max.x - b.min.x, b.max.y - b.min.y, b.max.z - b.min.z);
    if dx >= dy && dx >= dz {
        0
    } else if dy >= dz {
        1
    } else {
        2
    }
}

/// Small balls on a grid, some overlapping; the probe hits inside the ball.
fn balls() -> Vec<(Vec3<i64>, i64)> {
    let mut out = Vec::new();
    let mut seed: i64 = 7;
    for _ in 0..60 {
        seed = (seed * 1103515245 + 12345) % 2147483648;
        let x = seed % 50;
        seed = (seed * 1103515245 + 12345) % 2147483648;
        let y = seed % 50;
        seed = (seed * 1103515245 + 12345) % 2147483648;
        let z = seed % 50;
        out.push((v(x, y, z), 2 + seed % 4));
    }
    out
}

fn inside(c: Vec3<i64>, r: i64, p: Vec3<i64>) -> bool {
    let d = v(p.x - c.x, p.y - c.y, p.z - c.z);
    d.dot2() < r * r
}

#[test]
fn bvh_agrees_with_linear_scan() {
    let objs = balls();
    let boxes: Vec<Aabb> = objs.iter().map(|(c, r)| cube(c.x - r, c.y - r, c.z - r, 2 * r)).collect();
    let centers: Vec<Vec3<i64>> = boxes.iter().map(center).collect();
    let bvh = BVH::new(boxes.clone(), &centers, &widest);
    let mut hits = 0;
    for x in (-3..55).step_by(2) {
        for y in (-3..55).step_by(3) {
            for z in (-3..55).step_by(5) {
                let p = v(x, y, z);
                let probe = |i: usize| if inside(objs[i].0, objs[i].1, p) { Some(i) } else { None };
                let a = bvh.hit(p, &probe);
                let b = first_hit(objs.len(), &probe);
                assert_eq!(a.is_some(), b.is_some(), "{p:?}");
                if let Some(i) = a {
                    assert!(inside(objs[i].0, objs[i].1, p));
                    assert!(boxes[i].contains(p));
                    hits += 1;
                }
            }
        }
    }
    assert!(hits > 0);
}

#[test]
fn bvh_bounding_box_covers_all() {
    let boxes = vec![cube(0, 0, 0, 1), cube(5, -3, 2, 2), cube(-4, 1, 9, 1)];
    let centers: Vec<Vec3<i64>> = boxes.iter().map(center).collect();
    let bvh = BVH::new(boxes, &centers, &widest);
    let b = bvh.bounding_box().unwrap();
    assert_eq!(b.min, v(-4, -3, 0));
    assert_eq!(b.max, v(7, 2, 10));
}

#[test]
fn empty_bvh_always_misses() {
    let bvh = BVH::new(Vec::new(), &Vec::new(), &widest);
    assert!(bvh.bounding_box().is_none());
    assert_eq!(bvh.hit(v(0, 0, 0), &|i: usize| Some(i)), None);
}

#[test]
fn first_hit_takes_the_first() {
    let probe = |i: usize| if i >= 3 { Some(i * 10) } else { None };
    assert_eq!(first_hit(6, &probe), Some(30));
    assert_eq!(first_hit(3, &probe), None);
    assert_eq!(first_hit(0, &probe), None);
}

#[test]
fn scene_linear_and_accelerated_agree() {
    let objs = balls();
    let mut scene: ObjectsScene<(Vec3<i64>, i64), u8> = ObjectsScene::new(0);
    for (c, r) in &objs {
        let b = cube(c.x - r, c.y - r, c.z - r, 2 * r);
        scene.add((*c, *r), b, center(&b)).unwrap();
    }
    let mut linear = Vec::new();
    for x in (0..50).step_by(4) {
        for y in (0..50).step_by(4) {
            let p = v(x, y, 25);
            linear.push(scene.hit(p, &|o: &(Vec3<i64>, i64)| if inside(o.0, o.1, p) { Some(255u8) } else { None }));
        }
    }
    assert_eq!(scene.build_bvh(&widest), Ok(()));
    let mut k = 0;
    for x in (0..50).step_by(4) {
        for y in (0..50).step_by(4) {
            let p = v(x, y, 25);
            let c = scene.hit(p, &|o: &(Vec3<i64>, i64)| if inside(o.0, o.1, p) { Some(255u8) } else { None });
            assert_eq!(c, linear[k]);
            k += 1;
        }
    }
}

#[test]
fn built_scene_is_not_editable() {
    let mut scene: ObjectsScene<u32, u8> = ObjectsScene::new(0);
    assert_eq!(scene.add(1, cube(0, 0, 0, 1), v(0, 0, 0)), Ok(()));
    assert_eq!(scene.build_bvh(&widest), Ok(()));
    assert_eq!(scene.add(2, cube(0, 0, 0, 1), v(0, 0, 0)), Err(NotEditable));
    assert_eq!(scene.build_bvh(&widest), Err(NotEditable));
}

#[test]
fn scene_shows_background_on_a_miss() {
    let mut scene: ObjectsScene<u32, u8> = ObjectsScene::new(7);
    scene.add(1, cube(0, 0, 0, 2), v(1, 1, 1)).unwrap();
    assert_eq!(scene.hit(v(5, 5, 5), &|_: &u32| None), 7);
    assert_eq!(scene.hit(v(1, 1, 1), &|o: &u32| Some(*o as u8 + 100)), 101);
    scene.set_background(9);
    assert_eq!(scene.hit(v(1, 1, 1), &|_: &u32| None), 9);
    assert_eq!(scene.bounding_box(), Some(cube(0, 0, 0, 2)));
    let empty: ObjectsScene<u32, u8> = ObjectsScene::new(0);
    assert_eq!(empty.bounding_box(), None);
}
