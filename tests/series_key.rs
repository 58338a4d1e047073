use talna::{Error, MetricName, SeriesKey};

#[test]
fn create_series_key() {
    let metric = MetricName::try_from("cpu.total").unwrap();

    assert_eq!(
        "cpu.total#service:web",
        SeriesKey::format(metric, &[("service", "web")]),
    );
}

#[test]
fn create_series_key_2() {
    let metric = MetricName::try_from("cpu.total").unwrap();

    assert_eq!(
        "cpu.total#host:i-187;service:web",
        SeriesKey::format(metric, &[("service", "web"), ("host", "i-187")]),
    );
}

#[test]
fn create_series_key_3() {
    let metric = MetricName::try_from("cpu.total").unwrap();

    assert_eq!(
        "cpu.total#env:dev;host:i-187;service:web",
        SeriesKey::format(
            metric,
            &[("service", "web"), ("host", "i-187"), ("env", "dev")],
        ),
    );
}

#[test]
fn series_key_ignores_tag_order() {
    let metric = MetricName::try_from("cpu.total").unwrap();
    let a = SeriesKey::format(metric, &[("b", "2"), ("a", "1"), ("c", "3")]);
    let b = SeriesKey::format(metric, &[("c", "3"), ("b", "2"), ("a", "1")]);
    assert_eq!(a, b);
    assert_eq!("cpu.total#a:1;b:2;c:3", a);
}

#[test]
fn series_key_differs_for_other_tags() {
    let metric = MetricName::try_from("cpu.total").unwrap();
    let a = SeriesKey::format(metric, &[("env", "prod")]);
    let b = SeriesKey::format(metric, &[("env", "dev")]);
    assert_ne!(a, b);
}

#[test]
fn series_key_orders_equal_keys_by_value() {
    let metric = MetricName::try_from("m").unwrap();
    assert_eq!("m#k:a;k:b", SeriesKey::format(metric, &[("k", "b"), ("k", "a")]));
}

#[test]
fn series_key_without_tags() {
    let metric = MetricName::try_from("m").unwrap();
    assert_eq!("m#", SeriesKey::format(metric, &[]));
}

#[test]
fn join_tags_appends() {
    let mut buf = String::from("x|");
    SeriesKey::join_tags(&mut buf, &[("service", "db"), ("env", "prod")]);
    assert_eq!("x|env:prod;service:db", buf);
}

#[test]
fn allocated_string_is_empty() {
    let s = SeriesKey::allocate_string_for_tags(&[("a", "b")], 10);
    assert!(s.is_empty());
}

#[test]
fn metric_name_accepts_allowed_characters() {
    let m = MetricName::try_from("cpu.total_2").unwrap();
    assert_eq!("cpu.total_2", m.as_str());
}

#[test]
fn metric_name_rejects_other_characters() {
    assert_eq!(Err(Error::InvalidMetricName), MetricName::try_from("CPU").map(|_| ()));
    assert_eq!(Err(Error::InvalidMetricName), MetricName::try_from("cpu-total").map(|_| ()));
    assert_eq!(Err(Error::InvalidMetricName), MetricName::try_from("cpu total").map(|_| ()));
    assert_eq!(Err(Error::InvalidMetricName), MetricName::try_from("cpu#x").map(|_| ()));
}
