use talna::encoding::{
    append_posting, deserialize_postings_list, format_data_point_key, parse_data_point_key, scan_bounds,
    serialize_postings_list, unite_stored_postings,
};

#[test]
fn data_point_key_layout() {
    let k = format_data_point_key(0x0102030405060708, 0);
    assert_eq!(24, k.len());
    assert_eq!(&[1, 2, 3, 4, 5, 6, 7, 8], &k[0..8]);
    assert!(k[8..].iter().all(|b| *b == 0xff));
    let k = format_data_point_key(7, u128::MAX);
    assert!(k[8..].iter().all(|b| *b == 0));
    let k = format_data_point_key(7, 0x1234);
    let mut expected = 7u64.to_be_bytes().to_vec();
    expected.extend_from_slice(&(!0x1234u128).to_be_bytes());
    assert_eq!(expected, k);
}

#[test]
fn data_point_key_round_trip() {
    for (id, ts) in [(0u64, 0u128), (1, 5), (u64::MAX, u128::MAX), (42, 1_700_000_000_000_000_000)] {
        let k = format_data_point_key(id, ts);
        assert_eq!(Some((id, ts)), parse_data_point_key(&k));
    }
    assert_eq!(None, parse_data_point_key(&[0u8; 23]));
    assert_eq!(None, parse_data_point_key(&[0u8; 25]));
}

#[test]
fn newer_keys_sort_first() {
    let mut keys: Vec<(Vec<u8>, u128)> =
        [5u128, 0, 300, 1 << 70, 256, 4].iter().map(|ts| (format_data_point_key(3, *ts), *ts)).collect();
    keys.sort();
    let order: Vec<u128> = keys.iter().map(|(_, ts)| *ts).collect();
    assert_eq!(vec![1 << 70, 300, 256, 5, 4, 0], order);
}

#[test]
fn scan_bounds_unbounded_cover_the_series() {
    let (lo, hi) = scan_bounds(9, None, None);
    assert_eq!(format_data_point_key(9, u128::MAX), lo);
    assert_eq!(format_data_point_key(9, 0), hi);
    let (lo, hi) = scan_bounds(9, Some(2), None);
    assert_eq!(format_data_point_key(9, u128::MAX), lo);
    assert_eq!(format_data_point_key(9, 2), hi);
    let (lo, hi) = scan_bounds(9, None, Some(3));
    assert_eq!(format_data_point_key(9, 3), lo);
    assert_eq!(format_data_point_key(9, 0), hi);
}

#[test]
fn scan_bounds_start_after_end_is_empty() {
    let (lo, hi) = scan_bounds(9, Some(5), Some(3));
    assert!(lo > hi);
}

#[test]
fn scan_bounds_single_timestamp() {
    let (lo, hi) = scan_bounds(9, Some(4), Some(4));
    assert_eq!(lo, hi);
    assert_eq!(format_data_point_key(9, 4), lo);
}

#[test]
fn posting_list_encoding() {
    let b = serialize_postings_list(&[1, 258]);
    assert_eq!(vec![0, 0, 0, 0, 0, 0, 0, 2, 0, 0, 0, 0, 0, 0, 0, 1, 0, 0, 0, 0, 0, 0, 1, 2], b);
    assert_eq!(Some(vec![1, 258]), deserialize_postings_list(&b));
    assert_eq!(Some(vec![]), deserialize_postings_list(&serialize_postings_list(&[])));
}

#[test]
fn posting_list_too_short() {
    assert_eq!(None, deserialize_postings_list(&[0, 0, 0]));
    assert_eq!(None, deserialize_postings_list(&[0, 0, 0, 0, 0, 0, 0, 1, 9]));
}

#[test]
fn append_to_posting_lists() {
    let one = append_posting(None, 7).unwrap();
    assert_eq!(Some(vec![7]), deserialize_postings_list(&one));
    let two = append_posting(Some(&one), 9).unwrap();
    assert_eq!(Some(vec![7, 9]), deserialize_postings_list(&two));
    assert_eq!(None, append_posting(Some(&[1, 2]), 3));
}

#[test]
fn unite_prefix_lists() {
    let a = serialize_postings_list(&[3, 1]);
    let b = serialize_postings_list(&[2, 3]);
    assert_eq!(Some(vec![1, 2, 3]), unite_stored_postings(&[a.clone(), b]));
    assert_eq!(Some(vec![]), unite_stored_postings(&[]));
    assert_eq!(None, unite_stored_postings(&[a, vec![0]]));
}
