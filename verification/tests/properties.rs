use sbbf_rs_safe::Filter;

#[test]
fn no_false_negatives_survive_unrelated_insertions() {
    let mut filter = Filter::new(8, 256);
    filter.insert_hash(42);
    assert!(filter.contains_hash(42));
    for h in 0..1000u64 {
        filter.insert_hash(h.wrapping_mul(0x9e3779b97f4a7c15));
        assert!(filter.contains_hash(42));
    }
}

#[test]
fn insert_reports_prior_membership() {
    let mut filter = Filter::new(8, 16);
    assert!(!filter.insert_hash(7));
    assert!(filter.insert_hash(7));
}

#[test]
fn clone_independence() {
    let mut original = Filter::new(0, 0);
    original.insert_hash(1);
    let mut copy = original.clone();
    assert_eq!(copy.as_bytes(), original.as_bytes());

    let before = original.as_bytes().to_vec();
    copy.insert_hash(2);
    assert_eq!(original.as_bytes(), &before[..]);

    let copy_before = copy.as_bytes().to_vec();
    original.insert_hash(3);
    assert_eq!(copy.as_bytes(), &copy_before[..]);
}

#[test]
fn from_bytes_rejects_malformed_lengths() {
    assert!(Filter::from_bytes(&[]).is_none());
    assert!(Filter::from_bytes(&[0u8; 1]).is_none());
    assert!(Filter::from_bytes(&[0u8; 31]).is_none());
    assert!(Filter::from_bytes(&[0u8; 33]).is_none());
    assert!(Filter::from_bytes(&[0u8; 63]).is_none());
    assert!(Filter::from_bytes(&[0u8; 32]).is_some());
    assert!(Filter::from_bytes(&[0u8; 64]).is_some());
}

#[test]
fn sizing_floor() {
    let mut filter = Filter::new(0, 0);
    assert_eq!(filter.as_bytes().len(), 32);
    for h in [0u64, 5, 77, u64::MAX] {
        filter.insert_hash(h);
    }
    for h in [0u64, 5, 77, u64::MAX] {
        assert!(filter.contains_hash(h));
    }
}

#[test]
fn insert_zero_hash_exact_bytes() {
    // Hash 0 derives bit position 0 in every lane of bucket 0, so exactly
    // the lowest bit of each lane's first byte is set.
    let mut filter = Filter::new(0, 0);
    assert!(!filter.insert_hash(0));
    let mut expected = [0u8; 32];
    for lane in 0..8 {
        expected[4 * lane] = 1;
    }
    assert_eq!(filter.as_bytes(), &expected[..]);
}

#[test]
fn held_out_key_reports_absent() {
    // 0..1024 all probe the first bucket; this held-out hash probes another
    // bucket, which stays empty. A false positive is possible for other
    // held-out keys, just not for this one.
    let mut filter = Filter::new(8, 1024);
    for h in 0..1024u64 {
        filter.insert_hash(h);
    }
    assert!(!filter.contains_hash(1u64 << 60));
}

#[test]
fn bulk_population_through_writable_view() {
    let mut source = Filter::new(0, 0);
    source.insert_hash(11);
    source.insert_hash(22);
    let image = source.as_bytes().to_vec();

    let mut target = Filter::new(0, 0);
    target.as_bytes_mut().copy_from_slice(&image);
    assert_eq!(target.as_bytes(), &image[..]);
    assert!(target.contains_hash(11));
    assert!(target.contains_hash(22));
}

#[test]
fn roundtrip_of_fresh_filter() {
    let filter = Filter::new(3, 5);
    let restored = Filter::from_bytes(filter.as_bytes()).unwrap();
    assert_eq!(restored.as_bytes(), filter.as_bytes());
    assert!(!restored.contains_hash(9));
}
