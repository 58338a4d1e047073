use talna::tag_sets::{find_tag, group_series, parse_key_value_pairs};
use talna::{MetricName, SeriesKey};

fn pairs(v: &[(&str, &str)]) -> Vec<(String, String)> {
    v.iter().map(|(k, v)| (k.to_string(), v.to_string())).collect()
}

#[test]
fn parse_stored_tag_set() {
    assert_eq!(Some(pairs(&[("env", "prod"), ("host", "h-1")])), parse_key_value_pairs("env:prod;host:h-1"));
    assert_eq!(Some(pairs(&[("url", "a:b")])), parse_key_value_pairs("url:a:b"));
    assert_eq!(Some(pairs(&[("k", "")])), parse_key_value_pairs("k:"));
    assert_eq!(Some(vec![]), parse_key_value_pairs(""));
}

#[test]
fn parse_rejects_segment_without_colon() {
    assert_eq!(None, parse_key_value_pairs("env"));
    assert_eq!(None, parse_key_value_pairs("env:prod;"));
    assert_eq!(None, parse_key_value_pairs("a:b;c"));
}

#[test]
fn joined_tags_parse_back_sorted() {
    let mut s = String::new();
    SeriesKey::join_tags(&mut s, &[("service", "db"), ("env", "prod")]);
    assert_eq!(Some(pairs(&[("env", "prod"), ("service", "db")])), parse_key_value_pairs(&s));
}

#[test]
fn find_first_tag() {
    let t = pairs(&[("a", "1"), ("b", "2"), ("a", "3")]);
    assert_eq!(Some(&"1".to_string()), find_tag(&t, "a"));
    assert_eq!(None, find_tag(&t, "c"));
}

#[test]
fn group_by_tag_value() {
    let series = vec![
        pairs(&[("host", "a")]),
        pairs(&[("env", "prod")]),
        pairs(&[("host", "b")]),
        pairs(&[("host", "a"), ("env", "dev")]),
    ];
    let mut groups = group_series(&series, "host");
    groups.sort();
    assert_eq!(vec![("a".to_string(), vec![0, 3]), ("b".to_string(), vec![2])], groups);
}

#[test]
fn no_series_no_groups() {
    assert_eq!(Vec::<(String, Vec<usize>)>::new(), group_series(&[], "host"));
    assert_eq!(Vec::<(String, Vec<usize>)>::new(), group_series(&[pairs(&[("env", "x")])], "host"));
}

#[test]
fn equal_series_keys_mean_equal_tags() {
    let m = MetricName::try_from("cpu").unwrap();
    let a = SeriesKey::format(m, &[("host", "h-1"), ("env", "prod")]);
    let parsed = parse_key_value_pairs(a.strip_prefix("cpu#").unwrap()).unwrap();
    assert_eq!(pairs(&[("env", "prod"), ("host", "h-1")]), parsed);
}

#[test]
fn groups_are_never_empty() {
    let series = vec![pairs(&[("env", "x")]), pairs(&[("host", "a")]), pairs(&[("env", "y")])];
    for (_, members) in group_series(&series, "host") {
        assert!(!members.is_empty());
    }
    assert_eq!(1, group_series(&series, "host").len());
}
