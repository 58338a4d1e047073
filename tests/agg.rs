use talna::agg::{Bucketer, Span, Step};
use talna::merge::merge_order;
use talna::tag_sets::group_series;

fn spans(ts_newest_first: &[u128], width: u128) -> Vec<Span> {
    let mut b = Bucketer::new(width);
    let mut out = vec![];
    for ts in ts_newest_first {
        if let Step::Started(Some(s)) = b.push(*ts) {
            out.push(s);
        }
    }
    if let Some(s) = b.finish() {
        out.push(s);
    }
    out
}

#[test]
fn first_sample_opens_a_bucket() {
    let mut b = Bucketer::new(10);
    assert_eq!(Step::Started(None), b.push(100));
    assert_eq!(Step::Extended, b.push(95));
    assert_eq!(Step::Extended, b.push(90));
    assert_eq!(Step::Started(Some(Span { start: 90, end: 100, len: 3 })), b.push(89));
    assert_eq!(Some(Span { start: 89, end: 89, len: 1 }), b.finish());
    assert_eq!(None, b.finish());
}

#[test]
fn bucket_width_is_measured_from_the_newest_sample() {
    assert_eq!(
        vec![Span { start: 3, end: 5, len: 3 }, Span { start: 0, end: 2, len: 3 }],
        spans(&[5, 4, 3, 2, 1, 0], 2)
    );
}

#[test]
fn zero_width_groups_equal_timestamps() {
    assert_eq!(
        vec![Span { start: 7, end: 7, len: 2 }, Span { start: 6, end: 6, len: 1 }],
        spans(&[7, 7, 6], 0)
    );
}

#[test]
fn empty_stream_has_no_buckets() {
    assert_eq!(Vec::<Span>::new(), spans(&[], 10));
}

fn tags(service: &str) -> Vec<(String, String)> {
    vec![("service".to_string(), service.to_string())]
}

/// Series 0: talna at 0..4; series 1: smoltable at 5..6; one wide bucket each.
#[test]
fn count_per_group() {
    let series = vec![tags("talna"), tags("smoltable")];
    let samples: Vec<Vec<u128>> = vec![vec![4, 3, 2, 1, 0], vec![6, 5]];
    let groups = group_series(&series, "service");
    assert_eq!(2, groups.len());
    for (name, members) in groups {
        let inputs: Vec<Vec<u128>> = members.iter().map(|i| samples[*i].clone()).collect();
        let order = merge_order(&inputs);
        let ts: Vec<u128> = order.iter().map(|(i, p)| inputs[*i][*p]).collect();
        let got = spans(&ts, 60_000_000_000);
        match name.as_str() {
            "talna" => assert_eq!(vec![Span { start: 0, end: 4, len: 5 }], got),
            "smoltable" => assert_eq!(vec![Span { start: 5, end: 6, len: 2 }], got),
            _ => unreachable!(),
        }
    }
}

#[test]
fn range_restriction_spans() {
    let all: Vec<u128> = vec![4, 3, 2, 1, 0];
    let within = |lo: u128, hi: u128| -> Vec<u128> { all.iter().copied().filter(|t| lo <= *t && *t <= hi).collect() };
    assert_eq!(vec![Span { start: 2, end: 4, len: 3 }], spans(&within(2, u128::MAX), 60_000_000_000));
    assert_eq!(vec![Span { start: 0, end: 3, len: 4 }], spans(&within(0, 3), 60_000_000_000));
    assert_eq!(vec![Span { start: 1, end: 3, len: 3 }], spans(&within(1, 3), 60_000_000_000));
}
