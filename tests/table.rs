use automaton::table::{build_table, ConfigError};

fn index_ease(k: usize, i: usize) -> u64 {
    (100 * k + i) as u64
}

#[test]
fn segments_copy_node_values_at_their_start() {
    let t = build_table(&vec![10u64, 20, 30], &vec![0, 2, 2], 4, index_ease).unwrap();
    assert_eq!(t, vec![10, 1, 20, 30]);
}

#[test]
fn each_segment_eases_up_to_the_next_node() {
    let t = build_table(&vec![1u64, 2, 3], &vec![0, 2, 5], 7, index_ease).unwrap();
    assert_eq!(t, vec![1, 1, 2, 103, 104, 105, 3]);
}

#[test]
fn slots_up_to_the_first_node_hold_its_value() {
    let t = build_table(&vec![5u64, 7], &vec![2, 4], 6, index_ease).unwrap();
    assert_eq!(t, vec![5, 5, 5, 3, 4, 7]);
}

#[test]
fn nodes_on_one_slot_keep_the_later_value() {
    let t = build_table(&vec![5u64, 6, 7], &vec![0, 0, 3], 4, index_ease).unwrap();
    assert_eq!(t, vec![6, 101, 102, 103]);
}

#[test]
fn last_slot_on_last_node_is_eased() {
    let t = build_table(&vec![10u64, 20], &vec![0, 2], 3, index_ease).unwrap();
    assert_eq!(t, vec![10, 1, 2]);
}

#[test]
fn fewer_than_two_nodes_is_a_config_error() {
    assert_eq!(
        build_table(&vec![4u64], &vec![0], 3, index_ease),
        Err(ConfigError { node_count: 1 })
    );
    assert_eq!(
        build_table(&Vec::<u64>::new(), &vec![], 3, index_ease),
        Err(ConfigError { node_count: 0 })
    );
}

#[test]
fn building_twice_gives_the_same_table() {
    let values = vec![0.5f32, -1.25, 3.0, 3.0];
    let slots = vec![0, 3, 7, 9];
    let ease = |k: usize, i: usize| (k as f32) * 0.1 + (i as f32) * 0.01;
    let a = build_table(&values, &slots, 11, ease).unwrap();
    let b = build_table(&values, &slots, 11, ease).unwrap();
    assert_eq!(a, b);
    assert_eq!(a.len(), 11);
}

#[test]
fn table_ends_hold_the_end_nodes() {
    let values = vec![4.0f32, 9.0, -2.0];
    let t = build_table(&values, &vec![0, 2, 4], 6, |_k: usize, _i: usize| 100.0f32).unwrap();
    assert_eq!(t[0], 4.0);
    assert_eq!(t[5], -2.0);
    assert_eq!(t[2], 9.0);
    assert_eq!(t[4], 100.0);
}

#[test]
fn straight_segment_table() {
    // Nodes (2, 4) and (6, 2) at one sample per time unit, eased linearly
    // with clamping before the first node.
    let (t0, v0, t1, v1) = (2.0f32, 4.0f32, 6.0f32, 2.0f32);
    let ease = |_k: usize, i: usize| {
        let time = i as f32;
        if time <= t0 {
            v0
        } else if time >= t1 {
            v1
        } else {
            v0 + (v1 - v0) * (time - t0) / (t1 - t0)
        }
    };
    let t = build_table(&vec![v0, v1], &vec![2, 6], 7, ease).unwrap();
    assert_eq!(t, vec![4.0, 4.0, 4.0, 3.5, 3.0, 2.5, 2.0]);
}
