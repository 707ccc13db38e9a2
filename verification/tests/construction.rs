use rand::rngs::StdRng;
use rand::{Rng, SeedableRng};
use rusticrayz::aabb::AABB;
use rusticrayz::builder::{Answer, BvhBuilder, Request};
use rusticrayz::bvh::{Bvh, BvhNode};
use rusticrayz::hittable::{Closest, HitRecord, Interval};
use rusticrayz::sphere::Sphere as Ball;
use rusticrayz::traverse::{Probe, Reply, Traversal};
use rusticrayz::vectors::{Scalar, Vec3, INFINITY, NEG_INFINITY};

// Numbers as order keys: the magnitude's bit pattern, with the sign in front.

fn key(x: f64) -> Scalar {
    assert!(!x.is_nan());
    if x == f64::INFINITY {
        INFINITY
    } else if x == f64::NEG_INFINITY {
        NEG_INFINITY
    } else if x >= 0.0 {
        x.abs().to_bits() as i64
    } else {
        -(x.abs().to_bits() as i64)
    }
}

fn unkey(k: Scalar) -> f64 {
    if k == INFINITY {
        f64::INFINITY
    } else if k == NEG_INFINITY {
        f64::NEG_INFINITY
    } else if k >= 0 {
        f64::from_bits(k as u64)
    } else {
        -f64::from_bits((-k) as u64)
    }
}

type P = [f64; 3];

fn keys(p: P) -> Vec3 {
    Vec3::new(key(p[0]), key(p[1]), key(p[2]))
}

fn unkeys(v: Vec3) -> P {
    [unkey(v.x), unkey(v.y), unkey(v.z)]
}

fn boxed(lo: P, hi: P) -> AABB {
    AABB::new(keys(lo), keys(hi))
}

fn size_of(b: &AABB) -> P {
    let (lo, hi) = (unkeys(b.min), unkeys(b.max));
    [hi[0] - lo[0], hi[1] - lo[1], hi[2] - lo[2]]
}

fn center_of(b: &AABB) -> Vec3 {
    let lo = unkeys(b.min);
    let s = size_of(b);
    keys([lo[0] + s[0] * 0.5, lo[1] + s[1] * 0.5, lo[2] + s[2] * 0.5])
}

fn area_of(b: &AABB) -> f64 {
    let s = size_of(b);
    2.0 * (s[0] * s[1] + s[1] * s[2] + s[2] * s[0])
}

/// Answers the builder's requests until the hierarchy is complete.
fn build(boxes: Vec<AABB>) -> Bvh {
    let centroids: Vec<Vec3> = boxes.iter().map(center_of).collect();
    let points: Vec<P> = centroids.iter().map(|c| unkeys(*c)).collect();
    let mut builder = BvhBuilder::new(boxes, centroids, key(f64::EPSILON)).unwrap();
    loop {
        let answer = match builder.request() {
            Request::Done => break,
            Request::Extents { centroid_bounds } => Answer::Extents(keys(size_of(&centroid_bounds))),
            Request::Bins { axis, low, high } => {
                let low = unkey(low);
                let size = unkey(high) - low;
                let raw = builder
                    .members()
                    .iter()
                    .map(|&i| ((points[i][axis] - low) / size * 6.0 - 0.01) as usize)
                    .collect();
                Answer::Bins(raw)
            }
            Request::Costs { whole } => {
                let costs = (0..5)
                    .map(|i| {
                        let (l, r) = builder.candidate(i).unwrap();
                        key((l.size as f64 * area_of(&l.aabb) + r.size as f64 * area_of(&r.aabb))
                            / area_of(&whole))
                    })
                    .collect();
                Answer::Costs(costs)
            }
        };
        builder = builder.advance(answer);
    }
    assert!(builder.is_done());
    Bvh::new(builder).unwrap()
}

fn cube(x: f64, y: f64, z: f64) -> AABB {
    boxed([x, y, z], [x + 1.0, y + 1.0, z + 1.0])
}

fn leaf(shape_index: usize) -> BvhNode {
    BvhNode::Leaf { shape_index }
}

#[test]
fn key_encoding_preserves_order() {
    let xs = [
        f64::NEG_INFINITY,
        -1e300,
        -2.5,
        -1.0,
        -1e-300,
        0.0,
        1e-300,
        0.001,
        1.0,
        2.5,
        1e300,
        f64::INFINITY,
    ];
    for w in xs.windows(2) {
        assert!(key(w[0]) < key(w[1]));
    }
    for x in xs {
        assert_eq!(unkey(key(x)), x);
    }
    assert_eq!(key(-0.0), key(0.0));
}

#[test]
fn no_hierarchy_over_no_shapes() {
    assert!(BvhBuilder::new(vec![], vec![], 0).is_none());
}

#[test]
fn every_shape_needs_its_centroid() {
    let b = cube(0.0, 0.0, 0.0);
    assert!(BvhBuilder::new(vec![b, b], vec![center_of(&b)], 0).is_none());
    assert!(BvhBuilder::new(vec![b], vec![center_of(&b), center_of(&b)], 0).is_none());
}

#[test]
fn single_shape_is_a_leaf() {
    let b = cube(0.0, 0.0, 0.0);
    let builder = BvhBuilder::new(vec![b], vec![center_of(&b)], key(f64::EPSILON)).unwrap();
    assert!(builder.is_done());
    assert_eq!(builder.request(), Request::Done);
    let bvh = Bvh::new(builder).unwrap();
    assert_eq!(bvh.nodes(), &vec![leaf(0)]);
    assert_eq!(bvh.boxes(), &vec![b]);
}

#[test]
fn unfinished_construction_gives_no_hierarchy() {
    let boxes = vec![cube(0.0, 0.0, 0.0), cube(5.0, 0.0, 0.0)];
    let centroids = boxes.iter().map(center_of).collect();
    let builder = BvhBuilder::new(boxes, centroids, key(f64::EPSILON)).unwrap();
    assert!(!builder.is_done());
    assert!(Bvh::new(builder).is_none());
}

#[test]
fn construction_starts_by_asking_for_the_extents_of_all_centroids() {
    let boxes = vec![cube(0.0, 0.0, 0.0), cube(5.0, 2.0, -3.0), cube(1.0, 9.0, 0.0)];
    let centroids = boxes.iter().map(center_of).collect();
    let builder = BvhBuilder::new(boxes, centroids, key(f64::EPSILON)).unwrap();
    assert_eq!(builder.members(), &vec![0, 1, 2]);
    assert_eq!(
        builder.request(),
        Request::Extents { centroid_bounds: boxed([0.5, 0.5, -2.5], [5.5, 9.5, 0.5]) }
    );
    assert!(builder.candidate(0).is_none());
}

#[test]
fn coincident_centroids_are_cut_in_halves_by_position() {
    let boxes = vec![
        boxed([-1.0, -1.0, -1.0], [1.0, 1.0, 1.0]),
        boxed([-2.0, -2.0, -2.0], [2.0, 2.0, 2.0]),
        boxed([-3.0, -3.0, -3.0], [3.0, 3.0, 3.0]),
    ];
    let bvh = build(boxes.clone());
    assert_eq!(
        bvh.nodes(),
        &vec![
            BvhNode::Node {
                left_index: 1,
                left_bbox: boxes[0],
                right_index: 2,
                right_bbox: boxes[2],
            },
            leaf(0),
            BvhNode::Node {
                left_index: 3,
                left_bbox: boxes[1],
                right_index: 4,
                right_bbox: boxes[2],
            },
            leaf(1),
            leaf(2),
        ]
    );
}

#[test]
fn answers_of_the_wrong_kind_are_ignored() {
    let boxes = vec![cube(0.0, 0.0, 0.0), cube(5.0, 0.0, 0.0)];
    let centroids = boxes.iter().map(center_of).collect();
    let builder = BvhBuilder::new(boxes, centroids, key(f64::EPSILON)).unwrap();
    let asked = builder.request();
    let builder = builder.advance(Answer::Costs(vec![0, 0, 0, 0, 0]));
    assert_eq!(builder.request(), asked);
    let builder = builder.advance(Answer::Bins(vec![0, 5]));
    assert_eq!(builder.request(), asked);
    let builder = builder.advance(Answer::Extents(keys([5.0, 0.0, 0.0])));
    assert_eq!(builder.request(), Request::Bins { axis: 0, low: key(0.5), high: key(5.5) });
    let builder = builder.advance(Answer::Extents(keys([5.0, 0.0, 0.0])));
    assert_eq!(builder.request(), Request::Bins { axis: 0, low: key(0.5), high: key(5.5) });
}

#[test]
fn answers_of_the_wrong_length_are_ignored() {
    let boxes = vec![cube(0.0, 0.0, 0.0), cube(5.0, 0.0, 0.0)];
    let centroids = boxes.iter().map(center_of).collect();
    let builder = BvhBuilder::new(boxes, centroids, key(f64::EPSILON)).unwrap();
    let builder = builder.advance(Answer::Extents(keys([5.0, 0.0, 0.0])));
    let asked = builder.request();
    let builder = builder.advance(Answer::Bins(vec![0]));
    assert_eq!(builder.request(), asked);
    let builder = builder.advance(Answer::Bins(vec![0, 1, 2]));
    assert_eq!(builder.request(), asked);
    let builder = builder.advance(Answer::Bins(vec![0, 5]));
    let whole = boxed([0.0, 0.0, 0.0], [6.0, 1.0, 1.0]);
    assert_eq!(builder.request(), Request::Costs { whole });
    let builder = builder.advance(Answer::Costs(vec![1, 2, 3, 4]));
    assert_eq!(builder.request(), Request::Costs { whole });
    let builder = builder.advance(Answer::Costs(vec![1, 2, 3, 4, 5, 6]));
    assert_eq!(builder.request(), Request::Costs { whole });
    let builder = builder.advance(Answer::Costs(vec![1, 2, 3, 4, 5]));
    assert_eq!(builder.request(), Request::Done);
}

#[test]
fn builder_tells_which_answer_it_takes() {
    let boxes = vec![cube(0.0, 0.0, 0.0), cube(5.0, 0.0, 0.0)];
    let centroids = boxes.iter().map(center_of).collect();
    let builder = BvhBuilder::new(boxes, centroids, key(f64::EPSILON)).unwrap();
    assert!(builder.takes(&Answer::Extents(keys([5.0, 0.0, 0.0]))));
    assert!(!builder.takes(&Answer::Bins(vec![0, 5])));
    assert!(!builder.takes(&Answer::Costs(vec![0, 0, 0, 0, 0])));
    let builder = builder.advance(Answer::Extents(keys([5.0, 0.0, 0.0])));
    assert!(builder.takes(&Answer::Bins(vec![0, 5])));
    assert!(!builder.takes(&Answer::Bins(vec![0])));
    assert!(!builder.takes(&Answer::Extents(keys([5.0, 0.0, 0.0]))));
    let builder = builder.advance(Answer::Bins(vec![0, 5]));
    assert!(builder.takes(&Answer::Costs(vec![0, 0, 0, 0, 0])));
    assert!(!builder.takes(&Answer::Costs(vec![0, 0, 0, 0])));
    let builder = builder.advance(Answer::Costs(vec![0, 0, 0, 0, 0]));
    assert!(!builder.takes(&Answer::Costs(vec![0, 0, 0, 0, 0])));
    assert!(!builder.takes(&Answer::Extents(keys([5.0, 0.0, 0.0]))));
}

#[test]
fn construction_takes_at_most_three_answers_for_each_split() {
    for (seed, count) in [(31, 2), (32, 5), (33, 40), (34, 129)] {
        let spheres = random_spheres(seed, count);
        let boxes: Vec<AABB> = spheres.iter().map(sphere_box).collect();
        let centroids: Vec<Vec3> = boxes.iter().map(center_of).collect();
        let points: Vec<P> = centroids.iter().map(|c| unkeys(*c)).collect();
        let mut builder = BvhBuilder::new(boxes, centroids, key(f64::EPSILON)).unwrap();
        let mut answers = 0;
        while !builder.is_done() {
            let answer = match builder.request() {
                Request::Extents { centroid_bounds } => Answer::Extents(keys(size_of(&centroid_bounds))),
                Request::Bins { axis, low, high } => {
                    let low = unkey(low);
                    let size = unkey(high) - low;
                    Answer::Bins(
                        builder
                            .members()
                            .iter()
                            .map(|&i| ((points[i][axis] - low) / size * 6.0 - 0.01) as usize)
                            .collect(),
                    )
                }
                Request::Costs { .. } => Answer::Costs(vec![5, 4, 3, 4, 5]),
                Request::Done => unreachable!(),
            };
            assert!(builder.takes(&answer));
            builder = builder.advance(answer);
            answers += 1;
        }
        assert!(answers <= 3 * (count - 1));
        check_tree(&Bvh::new(builder).unwrap(), count);
    }
}

#[test]
fn split_axis_is_the_one_of_largest_extent() {
    let boxes = vec![cube(0.0, 0.0, 0.0), cube(1.0, 7.0, 3.0)];
    let centroids = boxes.iter().map(center_of).collect();
    let builder = BvhBuilder::new(boxes, centroids, key(f64::EPSILON)).unwrap();
    let builder = builder.advance(Answer::Extents(keys([1.0, 7.0, 3.0])));
    assert_eq!(builder.request(), Request::Bins { axis: 1, low: key(0.5), high: key(7.5) });
}

#[test]
fn candidates_hold_the_buckets_on_either_side() {
    let boxes = vec![cube(0.0, 0.0, 0.0), cube(10.0, 0.0, 0.0), cube(20.0, 0.0, 0.0)];
    let centroids = boxes.iter().map(center_of).collect();
    let builder = BvhBuilder::new(boxes, centroids, key(f64::EPSILON)).unwrap();
    let builder = builder.advance(Answer::Extents(keys([20.0, 0.0, 0.0])));
    let builder = builder.advance(Answer::Bins(vec![0, 2, 5]));
    let (l, r) = builder.candidate(0).unwrap();
    assert_eq!((l.size, r.size), (1, 2));
    assert_eq!(l.aabb, cube(0.0, 0.0, 0.0));
    assert_eq!(r.aabb, boxed([10.0, 0.0, 0.0], [21.0, 1.0, 1.0]));
    let (l, r) = builder.candidate(1).unwrap();
    assert_eq!((l.size, r.size), (1, 2));
    let (l, r) = builder.candidate(2).unwrap();
    assert_eq!((l.size, r.size), (2, 1));
    assert_eq!(l.aabb, boxed([0.0, 0.0, 0.0], [11.0, 1.0, 1.0]));
    assert_eq!(r.aabb, cube(20.0, 0.0, 0.0));
    let (l, r) = builder.candidate(4).unwrap();
    assert_eq!((l.size, r.size), (2, 1));
    assert!(builder.candidate(5).is_none());
}

#[test]
fn cheapest_candidate_wins_and_the_first_on_a_tie() {
    let boxes: Vec<AABB> = (0..4).map(|i| cube(10.0 * i as f64, 0.0, 0.0)).collect();
    let bvh = build(boxes.clone());
    assert_eq!(
        bvh.nodes(),
        &vec![
            BvhNode::Node {
                left_index: 1,
                left_bbox: boxed([0.0, 0.0, 0.0], [11.0, 1.0, 1.0]),
                right_index: 4,
                right_bbox: boxed([20.0, 0.0, 0.0], [31.0, 1.0, 1.0]),
            },
            BvhNode::Node {
                left_index: 2,
                left_bbox: boxes[0],
                right_index: 3,
                right_bbox: boxes[1],
            },
            leaf(0),
            leaf(1),
            BvhNode::Node {
                left_index: 5,
                left_bbox: boxes[2],
                right_index: 6,
                right_bbox: boxes[3],
            },
            leaf(2),
            leaf(3),
        ]
    );
}

#[test]
fn buckets_come_out_in_bucket_order_not_in_input_order() {
    let boxes = vec![cube(30.0, 0.0, 0.0), cube(0.0, 0.0, 0.0), cube(20.0, 0.0, 0.0), cube(10.0, 0.0, 0.0)];
    let bvh = build(boxes);
    let leaves: Vec<usize> = bvh
        .nodes()
        .iter()
        .filter_map(|n| match n {
            BvhNode::Leaf { shape_index } => Some(*shape_index),
            _ => None,
        })
        .collect();
    assert_eq!(leaves, vec![1, 3, 2, 0]);
}

#[test]
fn an_empty_side_falls_back_to_halves() {
    let boxes = vec![cube(0.0, 0.0, 0.0), cube(10.0, 0.0, 0.0), cube(20.0, 0.0, 0.0)];
    let centroids = boxes.iter().map(center_of).collect();
    let builder = BvhBuilder::new(boxes.clone(), centroids, key(f64::EPSILON)).unwrap();
    let builder = builder.advance(Answer::Extents(keys([20.0, 0.0, 0.0])));
    let builder = builder.advance(Answer::Bins(vec![3, 3, 3]));
    let (l, r) = builder.candidate(4).unwrap();
    assert_eq!((l.size, r.size), (3, 0));
    let builder = builder.advance(Answer::Costs(vec![9, 9, 9, 9, 1]));
    assert_eq!(builder.members(), &vec![1, 2]);
    let nodes_so_far = match builder.request() {
        Request::Extents { centroid_bounds } => centroid_bounds,
        other => panic!("unexpected request {:?}", other),
    };
    assert_eq!(nodes_so_far, boxed([10.5, 0.5, 0.5], [20.5, 0.5, 0.5]));
}

fn check_tree(bvh: &Bvh, count: usize) {
    let nodes = bvh.nodes();
    let boxes = bvh.boxes();
    assert_eq!(nodes.len(), 2 * count - 1);
    fn walk(nodes: &[BvhNode], boxes: &[AABB], k: usize, seen: &mut Vec<usize>) -> AABB {
        match nodes[k] {
            BvhNode::Leaf { shape_index } => {
                seen.push(shape_index);
                boxes[shape_index]
            }
            BvhNode::Node { left_index, left_bbox, right_index, right_bbox } => {
                assert!(left_index > k && right_index > k);
                assert_eq!(walk(nodes, boxes, left_index, seen), left_bbox);
                assert_eq!(walk(nodes, boxes, right_index, seen), right_bbox);
                left_bbox.merge(&right_bbox)
            }
        }
    }
    let mut seen = vec![];
    walk(nodes, boxes, 0, &mut seen);
    seen.sort();
    assert_eq!(seen, (0..count).collect::<Vec<usize>>());
}

struct Sphere {
    center: P,
    radius: f64,
}

fn random_spheres(seed: u64, count: usize) -> Vec<Sphere> {
    let mut rng = StdRng::seed_from_u64(seed);
    (0..count)
        .map(|_| Sphere {
            center: [
                rng.gen_range(-20.0..20.0),
                rng.gen_range(-20.0..20.0),
                rng.gen_range(-20.0..20.0),
            ],
            radius: rng.gen_range(0.2..3.0),
        })
        .collect()
}

fn sphere_box(s: &Sphere) -> AABB {
    let (c, r) = (s.center, s.radius);
    boxed([c[0] - r, c[1] - r, c[2] - r], [c[0] + r, c[1] + r, c[2] + r])
}

fn dot(a: P, b: P) -> f64 {
    a[0] * b[0] + a[1] * b[1] + a[2] * b[2]
}

fn sphere_hit(s: &Sphere, index: usize, orig: P, dir: P, within: Interval) -> Option<HitRecord> {
    let ac = [orig[0] - s.center[0], orig[1] - s.center[1], orig[2] - s.center[2]];
    let a = dot(dir, dir);
    let half_b = dot(dir, ac);
    let c = dot(ac, ac) - s.radius * s.radius;
    let discriminant = half_b * half_b - a * c;
    let sqrtd = discriminant.abs().sqrt();
    let near = (-half_b - sqrtd) / a;
    let far = (-half_b + sqrtd) / a;
    let root = unkey(Ball::root(key(discriminant), key(near), key(far), &within)?);
    let point = [orig[0] + dir[0] * root, orig[1] + dir[1] * root, orig[2] + dir[2] * root];
    let out = [
        (point[0] - s.center[0]) / s.radius,
        (point[1] - s.center[1]) / s.radius,
        (point[2] - s.center[2]) / s.radius,
    ];
    Some(HitRecord::with_face_normal(
        keys(point),
        keys(out),
        keys([-out[0], -out[1], -out[2]]),
        key(root),
        key(0.0),
        key(0.0),
        key(dot(dir, out)),
        index,
    ))
}

fn crossing(t: f64, enters: bool) -> Scalar {
    if t.is_nan() {
        if enters {
            NEG_INFINITY
        } else {
            INFINITY
        }
    } else {
        key(t)
    }
}

fn box_hit(b: &AABB, orig: P, dir: P, within: Interval) -> bool {
    let (lo, hi) = (unkeys(b.min), unkeys(b.max));
    let (mut t0, mut t1, mut inv) = ([0; 3], [0; 3], [0; 3]);
    for a in 0..3 {
        let inv_d = dir[a].recip();
        t0[a] = crossing((lo[a] - orig[a]) * inv_d, !(inv_d < 0.0));
        t1[a] = crossing((hi[a] - orig[a]) * inv_d, inv_d < 0.0);
        inv[a] = key(inv_d);
    }
    AABB::hit(
        &Vec3::new(t0[0], t0[1], t0[2]),
        &Vec3::new(t1[0], t1[1], t1[2]),
        &Vec3::new(inv[0], inv[1], inv[2]),
        &within,
    )
}

/// Answers the traversal's probes; counts the tests.
fn traverse(bvh: &Bvh, spheres: &[Sphere], orig: P, dir: P, within: Interval) -> (Option<HitRecord>, usize) {
    let mut traversal = Traversal::new(bvh, within);
    let mut tests = 0;
    loop {
        let reply = match traversal.probe() {
            Probe::Done => break,
            Probe::Box { bbox, interval } => Reply::Box(box_hit(&bbox, orig, dir, interval)),
            Probe::Shape { shape_index, interval } => {
                Reply::Shape(sphere_hit(&spheres[shape_index], shape_index, orig, dir, interval))
            }
        };
        tests += 1;
        traversal = traversal.advance(reply);
    }
    assert!(traversal.is_done());
    (traversal.hit(), tests)
}

fn scan(spheres: &[Sphere], orig: P, dir: P, within: Interval) -> Option<HitRecord> {
    let mut closest = Closest::new(&within);
    for (i, s) in spheres.iter().enumerate() {
        closest.offer(sphere_hit(s, i, orig, dir, closest.interval()));
    }
    closest.hit
}

#[test]
fn built_hierarchy_is_a_tree_over_all_shapes() {
    for (seed, count) in [(1, 2), (2, 3), (3, 7), (4, 16), (5, 100), (6, 257)] {
        let spheres = random_spheres(seed, count);
        let bvh = build(spheres.iter().map(sphere_box).collect());
        check_tree(&bvh, count);
    }
}

#[test]
fn building_twice_gives_the_same_hierarchy() {
    let spheres = random_spheres(11, 60);
    let boxes: Vec<AABB> = spheres.iter().map(sphere_box).collect();
    let first = build(boxes.clone());
    let second = build(boxes);
    assert_eq!(first.nodes(), second.nodes());
    assert_eq!(first.boxes(), second.boxes());
}

#[test]
fn traversal_finds_the_same_nearest_hit_as_a_scan() {
    let spheres = random_spheres(21, 80);
    let bvh = build(spheres.iter().map(sphere_box).collect());
    let mut rng = StdRng::seed_from_u64(22);
    let within = Interval::new(key(0.001), INFINITY);
    let (mut hits, mut misses) = (0, 0);
    for _ in 0..500 {
        let orig = [rng.gen_range(-30.0..30.0), rng.gen_range(-30.0..30.0), rng.gen_range(-30.0..30.0)];
        let dir = [rng.gen_range(-1.0..1.0), rng.gen_range(-1.0..1.0), rng.gen_range(-1.0..1.0)];
        let (found, tests) = traverse(&bvh, &spheres, orig, dir, within);
        let scanned = scan(&spheres, orig, dir, within);
        assert!(tests < 3 * spheres.len());
        match (found, scanned) {
            (Some(a), Some(b)) => {
                assert_eq!(a.t, b.t);
                hits += 1;
            }
            (None, None) => misses += 1,
            (a, b) => panic!("traversal found {:?}, scan found {:?}", a, b),
        }
    }
    assert!(hits > 20);
    assert!(misses > 20);
}

#[test]
fn traversal_respects_the_end_of_the_interval() {
    let spheres = vec![
        Sphere { center: [0.0, 0.0, -5.0], radius: 1.0 },
        Sphere { center: [0.0, 0.0, -10.0], radius: 1.0 },
    ];
    let bvh = build(spheres.iter().map(sphere_box).collect());
    let orig = [0.0, 0.0, 0.0];
    let dir = [0.0, 0.0, -1.0];
    let (hit, _) = traverse(&bvh, &spheres, orig, dir, Interval::new(key(0.001), INFINITY));
    assert_eq!(hit.unwrap().t, key(4.0));
    assert_eq!(hit.unwrap().material, 0);
    let (hit, _) = traverse(&bvh, &spheres, orig, dir, Interval::new(key(4.5), INFINITY));
    assert_eq!(hit.unwrap().t, key(6.0));
    let (hit, _) = traverse(&bvh, &spheres, orig, dir, Interval::new(key(6.5), INFINITY));
    assert_eq!(hit.unwrap().t, key(9.0));
    assert_eq!(hit.unwrap().material, 1);
    let (hit, _) = traverse(&bvh, &spheres, orig, dir, Interval::new(key(0.001), key(4.0)));
    assert!(hit.is_none());
    let (hit, _) = traverse(&bvh, &spheres, orig, dir, Interval::new(key(11.5), INFINITY));
    assert!(hit.is_none());
}

#[test]
fn traversal_of_a_single_leaf_tests_the_shape_directly() {
    let spheres = vec![Sphere { center: [0.0, 0.0, -5.0], radius: 1.0 }];
    let bvh = build(spheres.iter().map(sphere_box).collect());
    let within = Interval::new(key(0.001), INFINITY);
    let traversal = Traversal::new(&bvh, within);
    assert_eq!(traversal.probe(), Probe::Shape { shape_index: 0, interval: within });
    let traversal = traversal.advance(Reply::Shape(None));
    assert_eq!(traversal.probe(), Probe::Done);
    assert!(traversal.hit().is_none());
}

#[test]
fn traversal_narrows_the_interval_before_the_right_box() {
    let boxes = vec![cube(0.0, 0.0, 0.0), cube(10.0, 0.0, 0.0)];
    let bvh = build(boxes.clone());
    let within = Interval::new(key(0.0), key(100.0));
    let traversal = Traversal::new(&bvh, within);
    assert_eq!(traversal.probe(), Probe::Box { bbox: boxes[0], interval: within });
    let traversal = traversal.advance(Reply::Box(true));
    assert_eq!(traversal.probe(), Probe::Shape { shape_index: 0, interval: within });
    let hit = HitRecord::with_face_normal(
        keys([0.0, 0.0, 0.0]),
        keys([0.0, 0.0, 1.0]),
        keys([0.0, 0.0, -1.0]),
        key(7.0),
        key(0.0),
        key(0.0),
        key(-1.0),
        0,
    );
    let traversal = traversal.advance(Reply::Shape(Some(hit)));
    let narrowed = Interval::new(key(0.0), key(7.0));
    assert_eq!(traversal.probe(), Probe::Box { bbox: boxes[1], interval: narrowed });
    let traversal = traversal.advance(Reply::Box(false));
    assert_eq!(traversal.probe(), Probe::Done);
    assert_eq!(traversal.hit(), Some(hit));
}

#[test]
fn traversal_ignores_replies_of_the_wrong_kind() {
    let boxes = vec![cube(0.0, 0.0, 0.0), cube(10.0, 0.0, 0.0)];
    let bvh = build(boxes.clone());
    let within = Interval::new(key(0.0), key(100.0));
    let traversal = Traversal::new(&bvh, within);
    let asked = traversal.probe();
    let traversal = traversal.advance(Reply::Shape(None));
    assert_eq!(traversal.probe(), asked);
    let traversal = traversal.advance(Reply::Box(false));
    let traversal = traversal.advance(Reply::Box(false));
    assert!(traversal.is_done());
    let traversal = traversal.advance(Reply::Box(true));
    assert!(traversal.is_done());
    assert!(traversal.hit().is_none());
}
