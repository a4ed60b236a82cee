use groupby_hashing::groups::{finish_group_order_vecs, GroupsIdx};
use groupby_hashing::multi::{
    compare_df_rows, compare_keys, groupby_threaded_multiple_keys_flat, populate_multiple_key_hashmap,
    row_hashes, Column, DataFrame, GroupbyError,
};
use groupby_hashing::partition::{is_power_of_two, this_partition};
use groupby_hashing::single::{group_partition, groupby, groupby_threaded_num2};
use groupby_hashing::table::{IdxHashTable, KeyTable};

fn groups_of(g: &GroupsIdx) -> Vec<(u32, Vec<u32>)> {
    let mut out = Vec::new();
    for i in 0..g.len() {
        let (f, m) = g.get(i);
        out.push((f, m.clone()));
    }
    out
}

fn sorted_groups(g: &GroupsIdx) -> Vec<(u32, Vec<u32>)> {
    let mut out = groups_of(g);
    out.sort();
    out
}

fn check_partition(g: &GroupsIdx, n: usize) {
    let mut seen = vec![0usize; n];
    for (f, m) in groups_of(g) {
        assert!(!m.is_empty());
        assert_eq!(m[0], f);
        for w in m.windows(2) {
            assert!(w[0] < w[1]);
        }
        for &i in &m {
            seen[i as usize] += 1;
        }
    }
    assert!(seen.iter().all(|&c| c == 1));
}

fn strs(v: &[&str]) -> Column {
    Column::Utf8(v.iter().map(|s| s.as_bytes().to_vec()).collect())
}

#[test]
fn single_key_unsorted_scenario() {
    let keys = [1u64, 2, 1, 3, 2, 1];
    let g = groupby(&keys, false);
    assert_eq!(g.len(), 3);
    assert!(!g.is_sorted_flag());
    assert_eq!(
        sorted_groups(&g),
        vec![(0, vec![0, 2, 5]), (1, vec![1, 4]), (3, vec![3])]
    );
    check_partition(&g, keys.len());
    assert_eq!(g.total_rows(), 6);
}

#[test]
fn single_key_sorted_scenario() {
    let keys = [1u64, 2, 1, 3, 2, 1];
    let g = groupby(&keys, true);
    assert!(g.is_sorted_flag());
    assert_eq!(groups_of(&g), vec![(0, vec![0, 2, 5]), (1, vec![1, 4]), (3, vec![3])]);
    for np in [1u64, 2, 4, 8] {
        let t = groupby_threaded_num2(&keys, np, true);
        assert!(t.is_sorted_flag());
        assert_eq!(groups_of(&t), vec![(0, vec![0, 2, 5]), (1, vec![1, 4]), (3, vec![3])]);
    }
}

#[test]
fn threaded_unsorted_same_groups() {
    let keys: Vec<u64> = (0..500u64).map(|i| (i * 7919) % 37).collect();
    let seq = groupby(&keys, false);
    for np in [1u64, 2, 4, 16] {
        let t = groupby_threaded_num2(&keys, np, false);
        assert!(!t.is_sorted_flag());
        check_partition(&t, keys.len());
        assert_eq!(sorted_groups(&t), sorted_groups(&seq));
        let ts = groupby_threaded_num2(&keys, np, true);
        assert_eq!(groups_of(&ts), groups_of(&seq));
    }
}

#[test]
fn sorted_representatives_strictly_increase() {
    let keys: Vec<u64> = (0..300u64).map(|i| (i * i + 3) % 23).collect();
    let g = groupby_threaded_num2(&keys, 4, true);
    let f = g.first();
    for w in f.windows(2) {
        assert!(w[0] < w[1]);
    }
    assert_eq!(f.len(), 12);
}

#[test]
fn empty_input_gives_no_groups() {
    let keys: [u64; 0] = [];
    assert!(groupby(&keys, false).is_empty());
    assert!(groupby(&keys, true).is_empty());
    assert!(groupby_threaded_num2(&keys, 4, true).is_empty());
    assert!(groupby_threaded_num2(&keys, 2, false).is_empty());
    let df = DataFrame { columns: vec![Column::Int64(vec![]), strs(&[])] };
    assert!(groupby_threaded_multiple_keys_flat(&df, 2, true).unwrap().is_empty());
    let none = DataFrame { columns: vec![] };
    assert!(groupby_threaded_multiple_keys_flat(&none, 1, false).unwrap().is_empty());
}

#[test]
fn distinct_keys_give_singletons() {
    let keys = [9u64, 4, 7, 1];
    let g = groupby_threaded_num2(&keys, 2, true);
    assert_eq!(groups_of(&g), vec![(0, vec![0]), (1, vec![1]), (2, vec![2]), (3, vec![3])]);
}

#[test]
fn partition_uses_low_bits() {
    assert!(is_power_of_two(1));
    assert!(is_power_of_two(8));
    assert!(!is_power_of_two(0));
    assert!(!is_power_of_two(3));
    assert!(!is_power_of_two(12));
    assert!(this_partition(13, 1, 4));
    assert!(!this_partition(13, 3, 4));
    assert!(this_partition(0xff00, 0, 256));
    assert!(this_partition(u64::MAX, 0, 1));
    for h in 0..64u64 {
        let owners: Vec<u64> = (0..8).filter(|&t| this_partition(h, t, 8)).collect();
        assert_eq!(owners, vec![h % 8]);
    }
}

#[test]
fn worker_keeps_only_its_keys() {
    let keys = [1u64, 2, 1, 3, 2, 1];
    let (first, all) = group_partition(&keys, 1, 2);
    assert_eq!(first, vec![0, 3]);
    assert_eq!(all, vec![vec![0, 2, 5], vec![3]]);
    let (first, all) = group_partition(&keys, 0, 2);
    assert_eq!(first, vec![1]);
    assert_eq!(all, vec![vec![1, 4]]);
}

#[test]
fn multi_key_scenario() {
    let df = DataFrame { columns: vec![strs(&["a", "a", "a", "b"]), Column::Int64(vec![1, 2, 1, 1])] };
    for np in [1usize, 2, 4] {
        let g = groupby_threaded_multiple_keys_flat(&df, np, false).unwrap();
        assert_eq!(sorted_groups(&g), vec![(0, vec![0, 2]), (1, vec![1]), (3, vec![3])]);
        let s = groupby_threaded_multiple_keys_flat(&df, np, true).unwrap();
        assert!(s.is_sorted_flag());
        assert_eq!(groups_of(&s), vec![(0, vec![0, 2]), (1, vec![1]), (3, vec![3])]);
    }
}

#[test]
fn multi_key_matches_brute_force() {
    let n = 60usize;
    let a: Vec<i64> = (0..n as i64).map(|i| i % 3 - 1).collect();
    let b: Vec<&str> = (0..n).map(|i| ["x", "yy", "x", "", "zz"][(i * 7) % 5]).collect();
    let c: Vec<i64> = (0..n as i64).map(|i| (i / 4) % 2).collect();
    let df = DataFrame { columns: vec![Column::Int64(a.clone()), strs(&b), Column::Int64(c.clone())] };
    let g = groupby_threaded_multiple_keys_flat(&df, 4, false).unwrap();
    check_partition(&g, n);
    let mut group_of = vec![usize::MAX; n];
    for (gi, (_, m)) in groups_of(&g).into_iter().enumerate() {
        for i in m {
            group_of[i as usize] = gi;
        }
    }
    for i in 0..n {
        for j in 0..n {
            let same = a[i] == a[j] && b[i] == b[j] && c[i] == c[j];
            assert_eq!(group_of[i] == group_of[j], same);
            assert_eq!(compare_df_rows(&df, i, j), same);
        }
    }
}

#[test]
fn multi_key_shape_mismatch() {
    let df = DataFrame { columns: vec![Column::Int64(vec![1, 2, 3]), strs(&["a", "b"])] };
    assert_eq!(groupby_threaded_multiple_keys_flat(&df, 2, false).err(), Some(GroupbyError::ShapeMismatch));
}

#[test]
fn equal_rows_hash_alike() {
    let cols = vec![strs(&["ab", "ba", "ab"]), Column::Int64(vec![5, 5, 5])];
    let h = row_hashes(&cols, 3);
    assert_eq!(h.len(), 3);
    assert_eq!(h[0], h[2]);
    assert_ne!(h[0], h[1]);
    assert!(compare_keys(&cols, 0, 2));
    assert!(!compare_keys(&cols, 0, 1));
}

#[test]
fn resorting_sorted_result_is_identity() {
    let keys = [4u64, 4, 2, 9, 2, 4, 7];
    let g = groupby(&keys, true);
    let before = groups_of(&g);
    let again = finish_group_order_vecs(vec![(g.first().clone(), g.all().clone())], true);
    assert_eq!(groups_of(&again), before);
    assert_eq!(again.first(), g.first());
}

#[test]
fn finisher_merges_workers() {
    let vecs = vec![
        (vec![0u32, 5], vec![vec![0u32, 2], vec![5]]),
        (vec![1u32, 3], vec![vec![1u32, 4], vec![3, 6]]),
    ];
    let s = finish_group_order_vecs(vecs.clone(), true);
    assert_eq!(s.first(), &vec![0, 1, 3, 5]);
    assert_eq!(s.all(), &vec![vec![0, 2], vec![1, 4], vec![3, 6], vec![5]]);
    let u = finish_group_order_vecs(vecs, false);
    assert!(!u.is_sorted_flag());
    assert_eq!(u.first(), &vec![0, 5, 1, 3]);
}

#[test]
fn key_table_stores_offsets() {
    let mut t = KeyTable::with_capacity(4);
    assert_eq!(t.get(7), None);
    t.insert(7, 3);
    t.insert(9, 1);
    assert_eq!(t.get(7), Some(3));
    assert_eq!(t.get(9), Some(1));
    t.insert(7, 5);
    assert_eq!(t.get(7), Some(5));
}

#[test]
fn populate_finds_equal_rows_only() {
    let cols = vec![strs(&["a", "b", "a"])];
    let mut t = IdxHashTable::with_capacity(4);
    // rows 0 and 1 share a hash on purpose; only row content decides.
    assert_eq!(populate_multiple_key_hashmap(&mut t, 0, 42, &cols, 0), None);
    assert_eq!(populate_multiple_key_hashmap(&mut t, 1, 42, &cols, 1), None);
    assert_eq!(t.get(42), Some(vec![(0, 0), (1, 1)]));
    assert_eq!(populate_multiple_key_hashmap(&mut t, 2, 42, &cols, 2), Some(0));
    assert_eq!(t.get(42), Some(vec![(0, 0), (1, 1)]));
    assert_eq!(t.get(43), None);
}
