use rw_core::hummock_utils::{
    prune_ssts, range_overlap, user_key, validate_epoch, validate_table_key_range, HummockError,
    KeyBound, KeyRange, KeyRangeBounds, Level, SstableInfo,
};
use rw_core::key_order::{compare_keys, KeyOrder};

fn inc(k: &[u8]) -> KeyBound {
    KeyBound::Included(k.to_vec())
}

fn exc(k: &[u8]) -> KeyBound {
    KeyBound::Excluded(k.to_vec())
}

fn range(start: KeyBound, end: KeyBound) -> KeyRangeBounds {
    KeyRangeBounds { start, end }
}

fn full_key(user: &[u8], epoch: u64) -> Vec<u8> {
    let mut k = user.to_vec();
    k.extend_from_slice(&epoch.to_be_bytes());
    k
}

fn sst(id: u64, left: &[u8], right: &[u8]) -> SstableInfo {
    SstableInfo {
        id,
        key_range: Some(KeyRange { left: full_key(left, 1), right: full_key(right, 1), inf: false }),
    }
}

#[test]
fn compare_keys_orders_lexicographically() {
    assert_eq!(compare_keys(b"abc", b"abd"), KeyOrder::Less);
    assert_eq!(compare_keys(b"ab", b"abc"), KeyOrder::Less);
    assert_eq!(compare_keys(b"abc", b"abc"), KeyOrder::Equal);
    assert_eq!(compare_keys(b"b", b"abc"), KeyOrder::Greater);
    assert_eq!(compare_keys(b"", b""), KeyOrder::Equal);
}

#[test]
fn range_overlap_included_bounds() {
    let r = range(inc(b"b"), inc(b"d"));
    assert!(range_overlap(&r, b"a", b"b", false));
    assert!(range_overlap(&r, b"d", b"f", false));
    assert!(!range_overlap(&r, b"e", b"f", false));
    assert!(!range_overlap(&r, b"a", b"az", false));
}

#[test]
fn range_overlap_excluded_bounds() {
    let r = range(exc(b"b"), exc(b"d"));
    assert!(!range_overlap(&r, b"a", b"b", false));
    assert!(!range_overlap(&r, b"d", b"f", false));
    assert!(range_overlap(&r, b"a", b"c", false));
}

#[test]
fn range_overlap_unbounded() {
    let r = range(KeyBound::Unbounded, KeyBound::Unbounded);
    assert!(range_overlap(&r, b"x", b"y", false));
    let r = range(KeyBound::Unbounded, inc(b"c"));
    assert!(!range_overlap(&r, b"d", b"e", false));
}

#[test]
fn range_overlap_reverse_swaps_bounds() {
    // A reverse scan from "d" down to "b" is written start = "d", end = "b".
    let r = range(inc(b"d"), inc(b"b"));
    assert!(range_overlap(&r, b"c", b"c", true));
    assert!(!range_overlap(&r, b"e", b"f", true));
    assert!(!range_overlap(&r, b"c", b"c", false));
}

#[test]
fn range_overlap_conservative_on_empty_excluded_range() {
    // Nothing lies strictly between "a" and "a\0", yet the check answers true.
    let r = range(exc(b"a"), exc(b"a\x00"));
    assert!(range_overlap(&r, b"a", b"a\x00", false));
}

#[test]
fn validate_epoch_checks_safe_epoch() {
    assert_eq!(validate_epoch(10, 9), Err(HummockError::ExpiredEpoch { safe_epoch: 10, epoch: 9 }));
    assert_eq!(validate_epoch(10, 10), Ok(()));
    assert_eq!(validate_epoch(10, 11), Ok(()));
}

#[test]
fn validate_table_key_range_reports_first_missing() {
    let levels = vec![
        Level { level_idx: 0, table_infos: vec![sst(1, b"a", b"b")] },
        Level {
            level_idx: 1,
            table_infos: vec![
                sst(2, b"c", b"d"),
                SstableInfo { id: 3, key_range: None },
                SstableInfo { id: 4, key_range: None },
            ],
        },
    ];
    assert_eq!(validate_table_key_range(&levels), Err(HummockError::MissingKeyRange { table_id: 3 }));
    assert_eq!(validate_table_key_range(&levels[..1]), Ok(()));
    assert_eq!(validate_table_key_range(&[]), Ok(()));
}

#[test]
fn user_key_strips_epoch() {
    let k = full_key(b"hello", 42);
    assert_eq!(user_key(&k), b"hello");
    assert_eq!(user_key(&[0u8; 8]), b"");
}

#[test]
fn prune_ssts_keeps_overlapping_in_order() {
    let ssts = vec![sst(1, b"a", b"c"), sst(2, b"d", b"f"), sst(3, b"g", b"k"), sst(4, b"b", b"h")];
    let r = range(inc(b"e"), exc(b"g"));
    assert_eq!(prune_ssts(&ssts, &r, false), vec![2, 4]);
    let rev = range(exc(b"g"), inc(b"e"));
    assert_eq!(prune_ssts(&ssts, &rev, true), vec![2, 4]);
    assert_eq!(prune_ssts(&[], &r, false), Vec::<u64>::new());
}
