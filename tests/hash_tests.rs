use hash_generator::hash::SipHasher;
use std::hash::{Hash, Hasher};

fn digest_of(k1: u64, k2: u64, bytes: &[u8]) -> u64 {
    let mut h = SipHasher::<2, 4>::new_with_keys(k1, k2);
    h.write(bytes);
    h.finish()
}

#[test]
fn digest_of_empty_input() {
    assert_eq!(digest_of(0, 0, b""), 0x22219f3d7671fe7f);
}

#[test]
fn digest_of_short_input() {
    assert_eq!(digest_of(0, 0, b"hello"), 0xc30a4640e4cd3d19);
}

#[test]
fn digest_of_input_with_partial_chunk() {
    let bytes: Vec<u8> = (0u8..20).collect();
    assert_eq!(digest_of(1, 2, &bytes), 0x4bbcd60382b5cd28);
}

#[test]
fn digest_with_other_round_counts() {
    let mut h = SipHasher::<1, 1>::new_with_keys(0, 0);
    h.write(b"abc");
    assert_eq!(h.finish(), 0x5592839d6f183e3c);
}

#[test]
fn digest_is_stable_across_instances() {
    assert_eq!(digest_of(3, 4, b"lorem ipsum"), digest_of(3, 4, b"lorem ipsum"));
}

#[test]
fn digest_depends_on_keys() {
    assert_ne!(digest_of(3, 4, b"lorem ipsum"), digest_of(4, 3, b"lorem ipsum"));
}

#[test]
fn feeding_in_two_pieces_on_a_word_boundary() {
    let bytes: Vec<u8> = (0u8..20).collect();
    let mut h = SipHasher::<2, 4>::new_with_keys(1, 2);
    h.write(&bytes[..8]);
    h.write(&bytes[8..]);
    assert_eq!(h.finish(), digest_of(1, 2, &bytes));
}

#[test]
fn feeding_in_two_pieces_off_a_word_boundary() {
    let bytes: Vec<u8> = (0u8..20).collect();
    for split in 0..=bytes.len() {
        let mut h = SipHasher::<2, 4>::new_with_keys(1, 2);
        h.write(&bytes[..split]);
        h.write(&bytes[split..]);
        assert_eq!(h.finish(), 0x4bbcd60382b5cd28);
    }
}

#[test]
fn feeding_byte_by_byte() {
    let bytes: Vec<u8> = (0u8..20).collect();
    let mut h = SipHasher::<2, 4>::new_with_keys(1, 2);
    for b in &bytes {
        h.write(&[*b]);
    }
    assert_eq!(h.finish(), digest_of(1, 2, &bytes));
}

#[test]
fn finish_leaves_the_instance_usable() {
    let mut h = SipHasher::<2, 4>::new_with_keys(1, 2);
    h.write(b"hello");
    let first = h.finish();
    assert_eq!(h.finish(), first);
}

#[test]
fn small_integers_feed_their_little_endian_bytes() {
    let mut a = SipHasher::<2, 4>::new_with_keys(7, 9);
    a.write_u8(5);
    let mut b = SipHasher::<2, 4>::new_with_keys(7, 9);
    b.write_u64(5);
    let mut c = SipHasher::<2, 4>::new_with_keys(7, 9);
    c.write(&[5]);
    assert_eq!(a.finish(), 0x12d1dd1550447f6);
    assert_eq!(b.finish(), 0x12d1dd1550447f6);
    assert_eq!(c.finish(), 0x12d1dd1550447f6);
}

#[test]
fn signed_integers_feed_their_own_width() {
    let mut a = SipHasher::<2, 4>::new_with_keys(7, 9);
    a.write_i8(-5);
    assert_eq!(a.finish(), 0x1d7fca7ea59f99);
    let mut b = SipHasher::<2, 4>::new_with_keys(7, 9);
    b.write_i32(-5);
    assert_eq!(b.finish(), 0x8c8848c676b4d448);
    let mut c = SipHasher::<2, 4>::new_with_keys(7, 9);
    c.write_i16(-5);
    assert_eq!(c.finish(), 0x2a007b90c0c36fca);
}

#[test]
fn minus_one_as_i8_is_the_byte_ff() {
    let mut a = SipHasher::<2, 4>::new_with_keys(7, 9);
    a.write_i8(-1);
    let mut b = SipHasher::<2, 4>::new_with_keys(7, 9);
    b.write(&[0xff]);
    assert_eq!(a.finish(), b.finish());
    assert_eq!(a.finish(), 0x713dca7d002f1051);
}

#[test]
fn integers_continue_pending_bytes() {
    let mut a = SipHasher::<2, 4>::new_with_keys(1, 2);
    a.write(&[0, 1, 2]);
    a.write_u32(0x0605_0403);
    a.write_u8(7);
    a.write_u16(0x0908);
    a.write(&[10, 11, 12, 13, 14, 15, 16, 17, 18, 19]);
    let bytes: Vec<u8> = (0u8..20).collect();
    assert_eq!(a.finish(), digest_of(1, 2, &bytes));
}

#[test]
fn isize_feeds_as_many_bytes_as_usize_has() {
    let mut a = SipHasher::<2, 4>::new_with_keys(3, 4);
    a.write_isize(-2);
    let mut b = SipHasher::<2, 4>::new_with_keys(3, 4);
    b.write(&(-2isize).to_le_bytes());
    assert_eq!(a.finish(), b.finish());
    let mut c = SipHasher::<2, 4>::new_with_keys(3, 4);
    c.write_usize(77);
    let mut d = SipHasher::<2, 4>::new_with_keys(3, 4);
    d.write(&77usize.to_le_bytes());
    assert_eq!(c.finish(), d.finish());
}

#[test]
fn wide_integers_are_sixteen_bytes_low_first() {
    let mut a = SipHasher::<2, 4>::new_with_keys(7, 9);
    a.write_u128((2u128 << 64) | 1);
    assert_eq!(a.finish(), 0xc3a4c9246fc7b76);
    let mut b = SipHasher::<2, 4>::new_with_keys(7, 9);
    b.write_i128(-1);
    let mut c = SipHasher::<2, 4>::new_with_keys(7, 9);
    c.write(&[0xff; 16]);
    assert_eq!(b.finish(), c.finish());
}

#[test]
fn std_hash_feeds_through_the_same_methods() {
    let mut a = SipHasher::<2, 4>::new_with_keys(7, 9);
    5u8.hash(&mut a);
    assert_eq!(Hasher::finish(&a), 0x12d1dd1550447f6);
    let mut b = SipHasher::<2, 4>::new_with_keys(7, 9);
    (-5i8).hash(&mut b);
    assert_eq!(Hasher::finish(&b), 0x1d7fca7ea59f99);
}
