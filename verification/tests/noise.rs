use diorama::noise::{hash21_bits, hash31_bits, hash_u32};

#[test]
fn hash_u32_known_values() {
    assert_eq!(hash_u32(0), 0);
    assert_eq!(hash_u32(1), 1753845952);
    assert_eq!(hash_u32(0xdead_beef), 3861431939);
    assert_eq!(hash_u32(u32::MAX), 1734902346);
}

#[test]
fn hash21_bits_known_values() {
    assert_eq!(hash21_bits(0, 0, 0), 0);
    assert_eq!(hash21_bits(3, -7, 11), 7144112);
    assert_eq!(hash21_bits(-1, -1, 909), 2104004);
}

#[test]
fn hash31_bits_known_values() {
    assert_eq!(hash31_bits(1, 2, 3, 4), 6548366);
    assert_eq!(hash31_bits(-5, 0, 7, 123), 5383508);
}

#[test]
fn hash_bits_scale_into_unit_interval() {
    for x in -20..20 {
        for y in -20..20 {
            let h = hash21_bits(x, y, 77);
            assert!(h < 1 << 24);
            let f = h as f32 / 16_777_216.0;
            assert!((0.0..1.0).contains(&f));
            assert!(hash31_bits(x, y, x ^ y, 5) < 1 << 24);
        }
    }
}

#[test]
fn hash_is_deterministic() {
    assert_eq!(hash21_bits(12, 34, 5), hash21_bits(12, 34, 5));
    assert_ne!(hash21_bits(12, 34, 5), hash21_bits(34, 12, 5));
}

#[test]
fn hash_u32_has_no_collisions_on_a_range() {
    let mut seen: Vec<u32> = (0u32..4096).map(hash_u32).collect();
    seen.sort();
    seen.dedup();
    assert_eq!(seen.len(), 4096);
    assert_eq!(hash_u32(0), 0);
}
