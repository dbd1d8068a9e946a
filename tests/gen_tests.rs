use hash_generator::gen::{gen_hash_fn, search, SearchError};
use hash_generator::hash::SipHasher;

const TEST_CRATE_ID: u64 = 8936564510611380703;

const TEST_STEPS: usize = 8;

const SAMPLE: &[&str] = &[
    "hello", "world", "foo", "baz", "bar", "lorem", "ipsum", "dolar", "sit", "amit",
];

fn sample() -> Vec<Vec<u8>> {
    SAMPLE.iter().map(|s| s.as_bytes().to_vec()).collect()
}

fn bucket(st_keys: (u64, u64), tsize: usize, item: &[u8]) -> usize {
    let mut h = SipHasher::<2, 4>::new_with_keys(st_keys.0, st_keys.1);
    h.write(item);
    (h.finish() as usize) & (tsize - 1)
}

#[test]
fn build_table_finishes() {
    let _ = gen_hash_fn::<2, 4>(&sample(), TEST_CRATE_ID, 1, 1024, TEST_STEPS);
}

#[test]
fn perfect_table_for_sample() {
    let items = sample();
    let st = gen_hash_fn::<2, 4>(&items, TEST_CRATE_ID, 0, 1, TEST_STEPS).unwrap();
    let ts = st.table_size();
    assert!(ts.is_power_of_two());
    assert!(ts >= 16);
    assert_eq!(ts, 32);
    assert_eq!(st.keys(), (TEST_CRATE_ID, 10630451751947828132));
    assert_eq!(st.collision_count(), 0);
    assert!(st.collision_map().is_empty());
    let occupied = st.key_val_map();
    assert_eq!(occupied.len(), items.len());
    assert!(occupied.iter().all(|p| p.1.len() == 1));
    let mut seen = vec![false; ts];
    for item in &items {
        let b = bucket(st.keys(), ts, item);
        assert!(!seen[b]);
        seen[b] = true;
    }
}

#[test]
fn looser_threshold_never_needs_a_larger_table() {
    let items = sample();
    let perfect = gen_hash_fn::<2, 4>(&items, TEST_CRATE_ID, 0, 1, TEST_STEPS).unwrap();
    let loose = gen_hash_fn::<2, 4>(&items, TEST_CRATE_ID, 1, 1024, TEST_STEPS).unwrap();
    assert!(loose.table_size() <= perfect.table_size());
    let looser = gen_hash_fn::<2, 4>(&items, TEST_CRATE_ID, 1, 2, TEST_STEPS).unwrap();
    assert!(looser.table_size() <= loose.table_size());
}

#[test]
fn search_is_deterministic() {
    let items = sample();
    let a = search::<2, 4>(&items, TEST_CRATE_ID, 1, 1024, TEST_STEPS);
    let b = search::<2, 4>(&items, TEST_CRATE_ID, 1, 1024, TEST_STEPS);
    assert_eq!(a, b);
    assert_eq!(a, Ok((10630451751947828132, 32)));
}

#[test]
fn half_density_accepts_a_table_with_collisions() {
    let items = sample();
    let st = gen_hash_fn::<2, 4>(&items, TEST_CRATE_ID, 1, 2, TEST_STEPS).unwrap();
    assert_eq!(st.table_size(), 16);
    assert_eq!(st.keys().1, 10074571450917542292);
    assert_eq!(st.collision_count(), 2);
    assert!(st.collision_count() * 2 <= st.table_size());
    let collided = st.collision_map();
    assert_eq!(collided.len(), 1);
    assert_eq!(collided[0].0, 6);
    let names: Vec<&[u8]> = collided[0].1.iter().map(|v| v.as_slice()).collect();
    assert_eq!(names, vec![&b"hello"[..], &b"sit"[..], &b"amit"[..]]);
    let occupied = st.key_val_map();
    let idx: Vec<usize> = occupied.iter().map(|p| p.0).collect();
    assert_eq!(idx, vec![1, 3, 4, 5, 6, 9, 10, 15]);
    let total: usize = occupied.iter().map(|p| p.1.len()).sum();
    assert_eq!(total, items.len());
}

#[test]
fn each_item_is_in_the_bucket_its_digest_selects() {
    let items = sample();
    let st = gen_hash_fn::<2, 4>(&items, TEST_CRATE_ID, 1, 2, TEST_STEPS).unwrap();
    for (idx, contents) in st.key_val_map() {
        for item in contents {
            assert_eq!(bucket(st.keys(), st.table_size(), item), idx);
        }
    }
}

#[test]
fn build_hasher_uses_the_table_keys() {
    let items = sample();
    let st = gen_hash_fn::<2, 4>(&items, TEST_CRATE_ID, 0, 1, TEST_STEPS).unwrap();
    let mut a = st.build_hasher();
    a.write(b"hello");
    let (g, l) = st.keys();
    let mut b = SipHasher::<2, 4>::new_with_keys(g, l);
    b.write(b"hello");
    assert_eq!(a.finish(), b.finish());
}

#[test]
fn one_key_per_size_gives_the_same_first_trial() {
    let items = sample();
    let a = search::<2, 4>(&items, TEST_CRATE_ID, 1, 1, 1);
    assert_eq!(a, Ok((10074571450917542292, 16)));
}

#[test]
fn empty_item_set_gives_a_one_slot_table() {
    let items: Vec<Vec<u8>> = Vec::new();
    let st = gen_hash_fn::<2, 4>(&items, 5, 0, 1, 1).unwrap();
    assert_eq!(st.table_size(), 1);
    assert_eq!(st.collision_count(), 0);
    assert!(st.key_val_map().is_empty());
    assert_eq!(st.keys(), (5, 1138006940306161589u64.wrapping_add(5)));
}

#[test]
fn single_item_gives_a_one_slot_table() {
    let items = vec![b"only".to_vec()];
    let st = gen_hash_fn::<2, 4>(&items, 5, 0, 1, 1).unwrap();
    assert_eq!(st.table_size(), 1);
    let occupied = st.key_val_map();
    assert_eq!(occupied.len(), 1);
    assert_eq!(occupied[0].0, 0);
}

#[test]
fn search_error_is_comparable() {
    assert_eq!(SearchError::TableSizeOverflow, SearchError::TableSizeOverflow);
}

#[test]
fn collision_count_of_a_given_key_and_size() {
    let items = sample();
    let n = hash_generator::gen::count_collisions::<2, 4>(&items, TEST_CRATE_ID, 10074571450917542292, 16);
    assert_eq!(n, 2);
    let none = hash_generator::gen::count_collisions::<2, 4>(&items, TEST_CRATE_ID, 10630451751947828132, 32);
    assert_eq!(none, 0);
    let one_slot = hash_generator::gen::count_collisions::<2, 4>(&items, TEST_CRATE_ID, 1, 1);
    assert_eq!(one_slot, items.len() - 1);
}
