use rust_compression::text::{centi_seconds_to_time_format, format_number};
use rust_compression::graph::{djikstra, EdgeTo, Priority, WGraph, UNREACHED};
use rust_compression::hashing::HashTable;
use rust_compression::investment::{get_best_investment, Investment};
use rust_compression::strings::{djb2_hash, StringKeyHashTable};
use rust_compression::sorting::{
    check_if_sorted, dual_pivot_quicksort, get_many_same_vec, get_sorted_vec, median3sort, partition,
    single_pivot_quicksort, split, sum,
};
use rust_compression::bytes::get_byte_array_from_u32;
use rust_compression::waypoints::{get_waypoint_cost, get_waypoints_from_bytes, Waypoint};

#[test]
fn sum_of_elements() {
    assert_eq!(sum(&vec![1, 2, 3]), 6);
    assert_eq!(sum(&vec![]), 0);
    assert_eq!(sum(&vec![i32::MAX, i32::MAX]), 2 * (i32::MAX as u128));
    // negative values wrap around modulo 2^128
    assert_eq!(sum(&vec![5, -2]), 3);
    assert_eq!(sum(&vec![-1]), u128::MAX);
}

#[test]
fn sortedness() {
    assert!(check_if_sorted(&vec![]));
    assert!(check_if_sorted(&vec![1]));
    assert!(check_if_sorted(&vec![1, 1, 2, 9]));
    assert!(!check_if_sorted(&vec![1, 3, 2]));
}

#[test]
fn generated_vectors() {
    assert_eq!(get_sorted_vec(5), vec![0, 1, 2, 3, 4]);
    assert!(get_sorted_vec(0).is_empty());
    assert_eq!(get_many_same_vec(6), vec![5, 1, 5, 3, 5, 5]);
    assert!(check_if_sorted(&get_sorted_vec(100)));
}

#[test]
fn median_of_three() {
    let mut v = vec![9, 0, 5, 0, 1];
    let mid = median3sort(&mut v, 0, 4);
    assert_eq!(mid, 2);
    assert_eq!(v, vec![1, 0, 5, 0, 9]);
    let mut v = vec![3, 2, 1];
    assert_eq!(median3sort(&mut v, 0, 2), 1);
    assert_eq!(v, vec![1, 2, 3]);
    let mut v = vec![4, 4];
    assert_eq!(median3sort(&mut v, 1, 1), 1);
    assert_eq!(v, vec![4, 4]);
}

#[test]
fn hash_table_probing() {
    let mut t = HashTable::new(7);
    assert_eq!(t.len(), 0);
    assert!(t.insert(10, 3, 2));
    assert!(t.insert(11, 3, 2)); // 3 is taken, lands on 5
    assert!(t.insert(12, 3, 2)); // 3, 5 taken, lands on 0
    assert_eq!(t.len(), 3);
    assert!(t.insert(13, 6, 9)); // step 9 is 2 modulo 7
    assert_eq!(t.len(), 4);
}

#[test]
fn full_hash_table_refuses() {
    let mut t = HashTable::new(2);
    assert!(t.insert(1, 0, 1));
    assert!(t.insert(2, 0, 1));
    assert!(!t.insert(3, 1, 1));
    assert_eq!(t.len(), 2);
    // a step that only revisits one slot gives up too
    let mut t = HashTable::new(4);
    assert!(t.insert(1, 0, 4));
    assert!(!t.insert(2, 0, 4));
    assert!(t.insert(2, 1, 4));
}

#[test]
fn graph_construction() {
    let mut g = WGraph::with_nodes(3);
    assert_eq!(g.nodes.len(), 3);
    assert!(g.nodes.iter().all(|n| n.is_empty()));
    g.nodes[0].push(EdgeTo::new(1, 4));
    assert_eq!(g.nodes[0][0], EdgeTo { to: 1, weight: 4 });
    let p = Priority::new(0, 17, &g.nodes[0]);
    assert_eq!((p.number, p.cost, p.nodes.len()), (0, 17, 1));
}

#[test]
fn landmark_estimate() {
    let a = Waypoint::new(0, vec![0, 10, 30], vec![0, 12, 25]);
    let b = Waypoint::new(2, vec![30, 20, 0], vec![25, 18, 0]);
    assert_eq!(a.source, 0);
    // from node 1 to node 2: a gives max(30 - 10, 0) = 20, b gives
    // max(0, 18 - 0) = 18
    assert_eq!(get_waypoint_cost(1, 2, &vec![a, b]), 20);
    let c = Waypoint::new(1, vec![5, 5, 5], vec![5, 5, 5]);
    assert_eq!(get_waypoint_cost(0, 2, &vec![c]), 0);
}

#[test]
fn djb2_values() {
    assert_eq!(djb2_hash(""), 5381);
    assert_eq!(djb2_hash("a"), 5381 * 33 + 97);
    assert_eq!(djb2_hash("ab"), (5381 * 33 + 97) * 33 + 98);
    // non-ASCII characters add their code point
    assert_eq!(djb2_hash("\u{c5}"), 5381 * 33 + 0xc5);
    // long strings wrap around the machine word
    let long = "z".repeat(40);
    let mut h: usize = 5381;
    for _ in 0..40 {
        h = h.wrapping_mul(33).wrapping_add(122);
    }
    assert_eq!(djb2_hash(&long), h);
}

#[test]
fn string_table() {
    let mut t = StringKeyHashTable::new(7);
    assert_eq!(t.len(), 0);
    assert!(!t.push("Ada Lovelace"));
    assert!(!t.push("Alan Turing") || djb2_hash("Alan Turing") % 7 == djb2_hash("Ada Lovelace") % 7);
    assert_eq!(t.len(), 2);
    assert_eq!(t.get("Ada Lovelace"), Some("Ada Lovelace".to_string()));
    assert_eq!(t.get("Grace Hopper"), None);
    // a table of one bucket collides on every push after the first
    let mut one = StringKeyHashTable::new(1);
    assert!(!one.push("x"));
    assert!(one.push("y"));
    assert!(one.push("x"));
    assert_eq!(one.len(), 3);
    assert_eq!(one.get("y"), Some("y".to_string()));
}

#[test]
fn best_trade() {
    assert_eq!(get_best_investment(&[]), None);
    assert_eq!(get_best_investment(&[5]), None);
    assert_eq!(get_best_investment(&[-1, -2, -3]), None);
    assert_eq!(get_best_investment(&[0, 0]), None);
    // gains from day 0 on
    assert_eq!(get_best_investment(&[5, 3]), Some(Investment { buy_day: 0, sell_day: 1 }));
    // a loss on day 0, then a gain
    assert_eq!(get_best_investment(&[-5, 3]), Some(Investment { buy_day: 0, sell_day: 1 }));
    // buy after the dip on day 2, sell on day 6
    assert_eq!(
        get_best_investment(&[1, -3, -2, 4, 5, -1, 2, -20]),
        Some(Investment { buy_day: 2, sell_day: 6 })
    );
    // equal totals: the first sell day and the latest start win
    assert_eq!(get_best_investment(&[2, -2, 3, -3, 3]), Some(Investment { buy_day: 1, sell_day: 2 }));
}

fn put(bytes: &mut Vec<u8>, v: u32) {
    bytes.extend(get_byte_array_from_u32(v));
}

#[test]
fn waypoint_file() {
    let mut bytes = Vec::new();
    for v in [7, 2, 10, 20, 1, 30] {
        put(&mut bytes, v);
    }
    for v in [9, 0, 3, 1, 2, 3] {
        put(&mut bytes, v);
    }
    let ws = get_waypoints_from_bytes(&bytes).unwrap();
    assert_eq!(ws.len(), 2);
    assert_eq!((ws[0].source, ws[0].distances_to.clone(), ws[0].distances_from.clone()), (7, vec![10, 20], vec![30]));
    assert_eq!((ws[1].source, ws[1].distances_to.clone(), ws[1].distances_from.clone()), (9, vec![], vec![1, 2, 3]));
    assert!(get_waypoints_from_bytes(&vec![]).unwrap().is_empty());
    // a record cut short
    bytes.pop();
    assert!(get_waypoints_from_bytes(&bytes).is_none());
    let mut short = Vec::new();
    put(&mut short, 1);
    put(&mut short, 5);
    assert!(get_waypoints_from_bytes(&short).is_none());
}

fn noise(n: usize, seed: u32) -> Vec<i32> {
    let mut x = seed;
    let mut v = Vec::new();
    for _ in 0..n {
        x = x.wrapping_mul(1_103_515_245).wrapping_add(12_345);
        v.push(((x >> 8) % 2000) as i32 - 1000);
    }
    v
}

#[test]
fn single_pivot_sorts() {
    for input in [vec![3], vec![2, 1], vec![3, 1, 2], noise(200, 1), get_many_same_vec(101), get_sorted_vec(50)] {
        let mut v = input.clone();
        let n = v.len();
        single_pivot_quicksort(&mut v, 0, n - 1);
        let mut expected = input.clone();
        expected.sort();
        assert_eq!(v, expected);
        assert!(check_if_sorted(&v));
        assert_eq!(sum(&v), sum(&input));
    }
    // only the given range moves
    let mut v = vec![9, 8, 7, 6, 5, 4, 3, 2, 1, 0];
    single_pivot_quicksort(&mut v, 2, 7);
    assert_eq!(v, vec![9, 8, 2, 3, 4, 5, 6, 7, 1, 0]);
}

#[test]
fn dual_pivot_sorts() {
    for input in [vec![3], vec![2, 1], vec![3, 1, 2], noise(300, 2), get_many_same_vec(99), vec![5; 20]] {
        let mut v = input.clone();
        let n = v.len() as isize;
        dual_pivot_quicksort(&mut v, 0, n - 1);
        let mut expected = input.clone();
        expected.sort();
        assert_eq!(v, expected);
    }
    let mut v: Vec<i32> = vec![];
    dual_pivot_quicksort(&mut v, 0, -1);
    assert!(v.is_empty());
    let mut v = vec![9, 8, 7, 6, 5, 4, 3, 2, 1, 0];
    dual_pivot_quicksort(&mut v, 1, 8);
    assert_eq!(v, vec![9, 1, 2, 3, 4, 5, 6, 7, 8, 0]);
}

#[test]
fn split_around_median() {
    let mut v = vec![5, 1, 9, 3, 7, 2, 8];
    let m = split(&mut v, 0, 6);
    assert!(0 < m && m < 6);
    assert_eq!(v[m], 5);
    assert!(v[..m].iter().all(|x| *x <= 5));
    assert!(v[m + 1..].iter().all(|x| *x >= 5));
}

#[test]
fn partition_around_two_pivots() {
    let mut v = vec![4, 9, 1, 7, 3, 8, 2, 6, 5];
    let (lo, hi) = partition(&mut v, 0, 8);
    assert!(lo < hi);
    let (p, q) = (v[lo], v[hi]);
    assert!(p <= q);
    assert!(v[..lo].iter().all(|x| *x < p));
    assert!(v[lo + 1..hi].iter().all(|x| p <= *x && *x <= q));
    assert!(v[hi + 1..].iter().all(|x| *x >= q));
    let mut sorted = v.clone();
    sorted.sort();
    assert_eq!(sorted, vec![1, 2, 3, 4, 5, 6, 7, 8, 9]);
}

#[test]
fn travel_time_text() {
    assert_eq!(centi_seconds_to_time_format(0), "0 seconds.");
    assert_eq!(centi_seconds_to_time_format(199), "1 second.");
    assert_eq!(centi_seconds_to_time_format(72_500), "12 minutes and 5 seconds.");
    // the plural goes by the whole count of the unit
    assert_eq!(centi_seconds_to_time_format(366_100), "1 hour, 1 minutes and 1 seconds.");
    assert_eq!(
        centi_seconds_to_time_format(90_000_000),
        "10 days, 10 hours, 0 minutes and 0 seconds."
    );
}

#[test]
fn grouped_numbers() {
    assert_eq!(format_number(0), "0");
    assert_eq!(format_number(999), "999");
    assert_eq!(format_number(12_345), "12 345");
    assert_eq!(format_number(7_654_321), "7 654 321");
    // groups are not padded with zeros
    assert_eq!(format_number(2_000_005), "2 0 5");
    // a high part of exactly 1000 is not split either
    assert_eq!(format_number(1_000_005), "0 5");
    // only numbers above 1000 are split
    assert_eq!(format_number(1000), "0");
    assert_eq!(format_number(1001), "1 1");
    assert_eq!(format_number(-5), "-5");
    assert_eq!(format_number(-12_345), "-345");
    assert_eq!(format_number(-3000), "0");
    assert_eq!(format_number(isize::MIN), "-808");
}

#[test]
fn shortest_paths() {
    let mut g = WGraph::with_nodes(6);
    let edges = [(0, 1, 7), (0, 2, 9), (0, 5, 14), (1, 2, 10), (1, 3, 15), (2, 3, 11), (2, 5, 2), (3, 4, 6), (5, 4, 9)];
    for (from, to, weight) in edges {
        g.nodes[from].push(EdgeTo::new(to, weight));
    }
    let (dist, prev) = djikstra(g, 0);
    assert_eq!(dist, vec![0, 7, 9, 20, 20, 11]);
    assert_eq!(prev, vec![None, Some(0), Some(0), Some(2), Some(5), Some(2)]);
}

#[test]
fn unreachable_nodes_keep_their_mark() {
    let mut g = WGraph::with_nodes(4);
    g.nodes[0].push(EdgeTo::new(1, 3));
    g.nodes[1].push(EdgeTo::new(0, 1));
    g.nodes[2].push(EdgeTo::new(3, 1));
    g.nodes[1].push(EdgeTo::new(1, 0));
    let (dist, prev) = djikstra(g, 1);
    assert_eq!(dist, vec![1, 0, UNREACHED, UNREACHED]);
    assert_eq!(prev, vec![Some(1), None, None, None]);
}
