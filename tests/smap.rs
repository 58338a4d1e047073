use talna::smap::allocate_series_id;

#[test]
fn ids_are_handed_out_without_gaps() {
    let mut counter: Option<Vec<u8>> = None;
    let mut ids = vec![];
    for _ in 0..5 {
        let (id, next) = allocate_series_id(counter.as_deref()).unwrap();
        ids.push(id);
        counter = Some(next);
    }
    assert_eq!(vec![0, 1, 2, 3, 4], ids);
    assert_eq!(Some(5u64.to_be_bytes().to_vec()), counter);
}

#[test]
fn exhausted_or_malformed_counter() {
    assert_eq!(None, allocate_series_id(Some(&u64::MAX.to_be_bytes())));
    assert_eq!(None, allocate_series_id(Some(&[1, 2, 3])));
}
