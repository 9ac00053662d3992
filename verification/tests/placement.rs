use std::collections::HashSet;

use store::storage_map::{
    build_straw_bucket, compute_location, straw_order, Algorithm, Bucket, Node, NodeEntry,
    PickMode, StorageMap,
};
use store::{DeviceId, GroupId, ObjectId};

fn object_id(num: usize) -> ObjectId {
    ObjectId(vec![
        num as u8,
        (num >> 8) as u8,
        (num >> 16) as u8,
        (num >> 24) as u8,
    ])
}

fn assert_frequencies(counts: &[usize], target: &[f32]) {
    assert_eq!(counts.len(), target.len());
    let total: usize = counts.iter().sum();
    let frequencies: Vec<f32> = counts.iter().map(|&c| c as f32 / total as f32).collect();
    assert!(
        frequencies
            .iter()
            .enumerate()
            .all(|(i, f)| f - 0.01 <= target[i] && f + 0.01 >= target[i]),
        "{:.2?} != {:.2?}",
        frequencies,
        target,
    );
}

/// The factors that make straws match the weights of the children.
fn straw_factors(children: &Vec<NodeEntry>) -> Vec<u32> {
    let weights: Vec<u32> = children.iter().map(|c| c.weight).collect();
    let order = straw_order(children);
    let total: u32 = weights.iter().sum();
    let probs: Vec<f64> = (0..weights.len())
        .map(|i| weights[order[i]] as f64 / total as f64)
        .collect();
    let mut factors: Vec<u32> = vec![0; weights.len()];
    factors[order[0]] = 0x100000;
    let mut mult = 1.0;
    for i in 1..weights.len() {
        factors[order[i]] = (factors[order[i - 1]] as f32
            * (1.0 - i as f32 * mult * (probs[i - 1] - probs[i]) as f32).powf(1.0 / i as f32))
            as u32;
        mult *= (factors[order[i - 1]] as f32 / factors[order[i]] as f32).powf(i as f32);
    }
    factors
}

#[test]
fn test_groups() {
    fn equal_1percent(a: usize, b: usize) -> bool {
        a * 100 >= b * 99 && a * 100 <= b * 101
    }

    const OBJECTS: usize = 100000;
    let objects: Vec<ObjectId> = (0..OBJECTS).into_iter().map(object_id).collect();

    // Map objects to groups
    const GROUPS1: usize = 128;
    let map1 = StorageMap {
        generation: 1,
        groups: GROUPS1 as u32,
        replicas: 1,
        map_root: Node::Device(DeviceId([1; 16])),
    };
    let mut group_counts1 = [0; GROUPS1];
    for obj in &objects {
        let group = map1.object_to_group(obj);
        group_counts1[group.0 as usize] += 1;
    }

    // Assert it is about even (2%)
    for &count in &group_counts1 {
        assert!(equal_1percent(count * GROUPS1, OBJECTS));
    }

    // Map objects to groups using a different number of groups
    const GROUPS2: usize = 256;
    let map2 = StorageMap {
        generation: 1,
        groups: GROUPS2 as u32,
        replicas: 1,
        map_root: Node::Device(DeviceId([1; 16])),
    };
    let mut group_counts2 = [0; GROUPS2];
    for obj in &objects {
        let group = map2.object_to_group(obj);
        group_counts2[group.0 as usize] += 1;
    }

    // Assert it is even also
    for &count in &group_counts2 {
        assert!(equal_1percent(count * GROUPS2, OBJECTS));
    }

    // Assert the number of differences
    let mut move_to_new = 0;
    let mut move_inner = 0;
    for obj in &objects {
        let group1 = map1.object_to_group(obj);
        let group2 = map2.object_to_group(obj);
        if group1 == group2 {
            // No movement
        } else if group2.0 as usize >= GROUPS1 {
            move_to_new += 1;
        } else {
            move_inner += 1;
        }
    }
    println!("moved to new groups:{}", move_to_new);
    println!("moved in old groups:{}", move_inner);
    assert_eq!(move_inner, 0);
    // About half the objects are moved
    assert!(equal_1percent(move_to_new * 2, OBJECTS));
}

#[test]
fn test_uniform() {
    let root = Node::Bucket(Bucket {
        id: 0,
        algorithm: Algorithm::Uniform,
        pick_mode: PickMode::PseudoRandom,
        children: vec![
            // Note that the weights do nothing
            NodeEntry {
                weight: 1,
                node: Node::Device(DeviceId([1; 16])),
            },
            NodeEntry {
                weight: 2,
                node: Node::Device(DeviceId([2; 16])),
            },
            NodeEntry {
                weight: 3,
                node: Node::Device(DeviceId([3; 16])),
            },
        ],
    });
    let target = [0.333, 0.333, 0.333];

    let mut counts = [0; 3];
    const NUM: usize = 100000;
    for i in 0..NUM {
        let device =
            compute_location(&root, &GroupId(i as u32), 0, 0, &mut HashSet::new()).unwrap();
        counts[device.0[0] as usize - 1] += 1;
    }

    assert_frequencies(&counts, &target);
}

#[test]
fn test_list() {
    let root = Node::Bucket(Bucket {
        id: 0,
        algorithm: Algorithm::List,
        pick_mode: PickMode::PseudoRandom,
        children: vec![
            NodeEntry {
                weight: 4,
                node: Node::Device(DeviceId([1; 16])),
            },
            NodeEntry {
                weight: 3,
                node: Node::Device(DeviceId([2; 16])),
            },
            NodeEntry {
                weight: 1,
                node: Node::Device(DeviceId([3; 16])),
            },
            NodeEntry {
                weight: 2,
                node: Node::Device(DeviceId([4; 16])),
            },
        ],
    });
    let target = [0.4, 0.3, 0.1, 0.2];

    let mut counts = [0; 4];
    const NUM: usize = 100000;
    for i in 0..NUM {
        let device =
            compute_location(&root, &GroupId(i as u32), 0, 0, &mut HashSet::new()).unwrap();
        counts[device.0[0] as usize - 1] += 1;
    }

    assert_frequencies(&counts, &target);
}

#[test]
fn test_straw() {
    let children = vec![
        NodeEntry { weight: 1, node: Node::Device(DeviceId([1; 16])) },
        NodeEntry { weight: 3, node: Node::Device(DeviceId([2; 16])) },
        NodeEntry { weight: 4, node: Node::Device(DeviceId([3; 16])) },
        NodeEntry { weight: 2, node: Node::Device(DeviceId([4; 16])) },
    ];
    let factors = straw_factors(&children);
    let root = build_straw_bucket(children, factors, 0, PickMode::PseudoRandom);
    let factors = match root.algorithm {
        Algorithm::Straw(ref factors) => factors,
        _ => panic!("Invalid algorithm"),
    };
    assert_eq!(factors[0], 690648);
    assert_eq!(factors[1], 943718);
    assert_eq!(factors[2], 1048576);
    assert_eq!(factors[3], 832281);

    let root = Node::Bucket(root);
    let target = [0.1, 0.3, 0.4, 0.2];

    let mut counts = [0; 4];
    const NUM: usize = 1000000;
    for i in 0..NUM {
        let device =
            compute_location(&root, &GroupId(i as u32), 0, 0, &mut HashSet::new()).unwrap();
        counts[device.0[0] as usize - 1] += 1;
    }

    assert_frequencies(&counts, &target);
}

fn device(n: u8) -> DeviceId {
    DeviceId([n; 16])
}

fn leaf(weight: u32, n: u8) -> NodeEntry {
    NodeEntry { weight, node: Node::Device(device(n)) }
}

fn map(replicas: u32, root: Node) -> StorageMap {
    StorageMap { generation: 1, groups: 64, replicas, map_root: root }
}

#[test]
fn groups_lie_below_their_number() {
    for groups in [1u32, 2, 3, 7, 128, 1000, u32::MAX] {
        let m = StorageMap { generation: 1, groups, replicas: 1, map_root: Node::Device(device(1)) };
        for i in 0..200 {
            assert!(m.object_to_group(&object_id(i * 7919)).0 < groups);
        }
    }
}

#[test]
fn group_depends_on_name_and_number_of_groups_only() {
    let a = map(1, Node::Device(device(1)));
    let b = StorageMap {
        generation: 9,
        groups: 64,
        replicas: 3,
        map_root: Node::Bucket(Bucket {
            id: 0,
            algorithm: Algorithm::Uniform,
            pick_mode: PickMode::PseudoRandom,
            children: vec![leaf(1, 1), leaf(1, 2)],
        }),
    };
    for i in 0..1000 {
        assert_eq!(a.object_to_group(&object_id(i)), b.object_to_group(&object_id(i)));
        assert_eq!(a.object_to_group(&object_id(i)), a.object_to_group(&object_id(i)));
    }
}

#[test]
fn every_group_has_a_first_device() {
    let rack = |id: u32, algorithm: Algorithm, first: u8| {
        Node::Bucket(Bucket {
            id,
            algorithm,
            pick_mode: PickMode::NeverRepeat,
            children: vec![leaf(1, first), leaf(2, first + 1), leaf(3, first + 2)],
        })
    };
    let m = map(
        2,
        Node::Bucket(Bucket {
            id: 0,
            algorithm: Algorithm::List,
            pick_mode: PickMode::NeverRepeat,
            children: vec![
                NodeEntry { weight: 5, node: rack(1, Algorithm::Uniform, 10) },
                NodeEntry { weight: 1, node: rack(2, Algorithm::Straw(vec![7, 8, 9]), 20) },
                NodeEntry { weight: 3, node: rack(3, Algorithm::Fallback, 30) },
            ],
        }),
    );
    assert!(m.is_well_formed());
    for group in 0..2000 {
        let first = m.group_to_first_device(&GroupId(group));
        assert!(first.is_some());
        assert_eq!(m.group_to_devices(&GroupId(group), 1), vec![first.unwrap()]);
    }
}

#[test]
fn device_root_holds_every_replica() {
    let m = map(3, Node::Device(device(9)));
    assert_eq!(m.group_to_devices(&GroupId(5), 0), vec![]);
    assert_eq!(m.group_to_devices(&GroupId(5), 3), vec![device(9); 3]);
    assert_eq!(m.group_to_first_device(&GroupId(5)), Some(device(9)));
}

#[test]
fn fallback_list_gives_devices_in_order() {
    let m = map(
        3,
        Node::Bucket(Bucket {
            id: 4,
            algorithm: Algorithm::Fallback,
            pick_mode: PickMode::NeverRepeat,
            children: vec![leaf(1, 1), leaf(1, 2), leaf(1, 3)],
        }),
    );
    for group in 0..50 {
        let group = GroupId(group);
        assert_eq!(m.group_to_devices(&group, 0), vec![]);
        assert_eq!(m.group_to_devices(&group, 1), vec![device(1)]);
        assert_eq!(m.group_to_devices(&group, 2), vec![device(1), device(2)]);
        assert_eq!(m.group_to_devices(&group, 3), vec![device(1), device(2), device(3)]);
        // The list ends when every child has been picked.
        assert_eq!(m.group_to_devices(&group, 7), vec![device(1), device(2), device(3)]);
        assert_eq!(m.group_to_first_device(&group), Some(device(1)));
    }
}

#[test]
fn never_repeat_gives_distinct_devices_and_stops_when_exhausted() {
    for algorithm in [Algorithm::Uniform, Algorithm::List, Algorithm::Straw(vec![100, 200, 300, 400])] {
        let m = map(
            4,
            Node::Bucket(Bucket {
                id: 0,
                algorithm,
                pick_mode: PickMode::NeverRepeat,
                children: vec![leaf(1, 1), leaf(2, 2), leaf(3, 3), leaf(4, 4)],
            }),
        );
        assert!(m.is_well_formed());
        for group in 0..200 {
            for k in 0..7usize {
                let devices = m.group_to_devices(&GroupId(group), k);
                assert_eq!(devices.len(), k.min(4));
                let distinct: HashSet<[u8; 16]> = devices.iter().map(|d| d.0).collect();
                assert_eq!(distinct.len(), devices.len());
                // Asking for more replicas keeps the first ones.
                assert_eq!(devices[..], m.group_to_devices(&GroupId(group), 7)[..k.min(4)]);
            }
        }
    }
}

#[test]
fn pseudo_random_may_repeat() {
    let m = map(
        2,
        Node::Bucket(Bucket {
            id: 0,
            algorithm: Algorithm::Uniform,
            pick_mode: PickMode::PseudoRandom,
            children: vec![leaf(1, 1)],
        }),
    );
    assert_eq!(m.group_to_devices(&GroupId(3), 5), vec![device(1); 5]);
}

#[test]
fn failure_domains_are_kept_apart() {
    // Two racks of two devices each; replicas must land in different racks.
    let rack = |id: u32, first: u8| {
        Node::Bucket(Bucket {
            id,
            algorithm: Algorithm::Uniform,
            pick_mode: PickMode::PseudoRandom,
            children: vec![leaf(1, first), leaf(1, first + 1)],
        })
    };
    let m = map(
        2,
        Node::Bucket(Bucket {
            id: 0,
            algorithm: Algorithm::Uniform,
            pick_mode: PickMode::NeverRepeat,
            children: vec![
                NodeEntry { weight: 1, node: rack(1, 10) },
                NodeEntry { weight: 1, node: rack(2, 20) },
            ],
        }),
    );
    assert!(m.is_well_formed());
    for group in 0..500 {
        let devices = m.group_to_devices(&GroupId(group), 3);
        assert_eq!(devices.len(), 2);
        let racks: HashSet<u8> = devices.iter().map(|d| d.0[0] / 10).collect();
        assert_eq!(racks.len(), 2);
    }
}

#[test]
fn fallback_past_the_list_finds_nothing() {
    // An inner list that is used up makes the outer bucket go on to the next.
    let inner = |id: u32, n: u8| {
        Node::Bucket(Bucket {
            id,
            algorithm: Algorithm::Fallback,
            pick_mode: PickMode::NeverRepeat,
            children: vec![leaf(1, n)],
        })
    };
    let m = map(
        3,
        Node::Bucket(Bucket {
            id: 0,
            algorithm: Algorithm::Fallback,
            pick_mode: PickMode::PseudoRandom,
            children: vec![
                NodeEntry { weight: 1, node: inner(1, 1) },
                NodeEntry { weight: 1, node: inner(2, 2) },
            ],
        }),
    );
    assert!(m.is_well_formed());
    assert_eq!(m.group_to_devices(&GroupId(0), 5), vec![device(1), device(2)]);
}

#[test]
fn ill_formed_maps_are_told_apart() {
    let with_root = |root: Node| StorageMap { generation: 1, groups: 8, replicas: 1, map_root: root };
    let bucket = |algorithm: Algorithm, children: Vec<NodeEntry>| {
        Node::Bucket(Bucket { id: 0, algorithm, pick_mode: PickMode::PseudoRandom, children })
    };
    assert!(with_root(Node::Device(device(1))).is_well_formed());
    assert!(!StorageMap { groups: 0, ..with_root(Node::Device(device(1))) }.is_well_formed());
    assert!(!StorageMap { replicas: 0, ..with_root(Node::Device(device(1))) }.is_well_formed());
    // A bucket needs a child
    assert!(!with_root(bucket(Algorithm::Uniform, vec![])).is_well_formed());
    assert!(!with_root(bucket(Algorithm::Fallback, vec![])).is_well_formed());
    assert!(with_root(bucket(Algorithm::Uniform, vec![leaf(0, 1)])).is_well_formed());
    // A list needs weight to draw from, and no more than fits
    assert!(!with_root(bucket(Algorithm::List, vec![leaf(0, 1), leaf(0, 2)])).is_well_formed());
    assert!(with_root(bucket(Algorithm::List, vec![leaf(0, 1), leaf(1, 2)])).is_well_formed());
    assert!(with_root(bucket(Algorithm::List, vec![leaf(u32::MAX, 1)])).is_well_formed());
    assert!(!with_root(bucket(Algorithm::List, vec![leaf(u32::MAX, 1), leaf(1, 2)])).is_well_formed());
    // Straws need a positive factor for each child
    assert!(with_root(bucket(Algorithm::Straw(vec![1, 2]), vec![leaf(1, 1), leaf(1, 2)])).is_well_formed());
    assert!(!with_root(bucket(Algorithm::Straw(vec![1]), vec![leaf(1, 1), leaf(1, 2)])).is_well_formed());
    assert!(!with_root(bucket(Algorithm::Straw(vec![1, 0]), vec![leaf(1, 1), leaf(1, 2)])).is_well_formed());
    // No two buckets may have the same ID: the walk would take the
    // children of one for picked when it has picked those of the other
    let twin = |id: u32| {
        Node::Bucket(Bucket {
            id,
            algorithm: Algorithm::Fallback,
            pick_mode: PickMode::NeverRepeat,
            children: vec![leaf(1, 1)],
        })
    };
    let nested = |outer: u32, inner: u32| {
        with_root(Node::Bucket(Bucket {
            id: outer,
            algorithm: Algorithm::Fallback,
            pick_mode: PickMode::NeverRepeat,
            children: vec![NodeEntry { weight: 1, node: twin(inner) }, leaf(1, 2)],
        }))
    };
    assert!(nested(7, 8).is_well_formed());
    assert!(!nested(7, 7).is_well_formed());
    assert_eq!(nested(7, 8).group_to_first_device(&GroupId(0)), Some(device(1)));
    assert!(!with_root(Node::Bucket(Bucket {
        id: 1,
        algorithm: Algorithm::Uniform,
        pick_mode: PickMode::PseudoRandom,
        children: vec![
            NodeEntry { weight: 1, node: twin(2) },
            NodeEntry { weight: 1, node: twin(3) },
            NodeEntry { weight: 1, node: twin(2) },
        ],
    }))
    .is_well_formed());
    // A bucket below a good one counts too
    assert!(!with_root(bucket(
        Algorithm::Uniform,
        vec![NodeEntry { weight: 1, node: bucket(Algorithm::Uniform, vec![]) }]
    ))
    .is_well_formed());
}

#[test]
fn list_picks_by_share_of_weight() {
    // With one child of all the weight every draw falls to it.
    let m = map(
        1,
        Node::Bucket(Bucket {
            id: 0,
            algorithm: Algorithm::List,
            pick_mode: PickMode::PseudoRandom,
            children: vec![leaf(0, 1), leaf(5, 2), leaf(0, 3)],
        }),
    );
    for group in 0..200 {
        assert_eq!(m.group_to_first_device(&GroupId(group)), Some(device(2)));
    }
}

#[test]
fn straw_order_is_heaviest_first_and_stable() {
    let children = vec![leaf(1, 1), leaf(3, 2), leaf(4, 3), leaf(2, 4)];
    assert_eq!(straw_order(&children), vec![2, 1, 3, 0]);
    let children = vec![leaf(5, 1), leaf(7, 2), leaf(5, 3), leaf(7, 4), leaf(5, 5)];
    assert_eq!(straw_order(&children), vec![1, 3, 0, 2, 4]);
    assert_eq!(straw_order(&vec![]), Vec::<usize>::new());
    let children = vec![leaf(0x8000_0000, 1), leaf(1, 2), leaf(u32::MAX, 3)];
    assert_eq!(straw_order(&children), vec![2, 0, 1]);
}
