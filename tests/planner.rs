use talna::encoding::{append_posting, deserialize_postings_list, unite_stored_postings};
use talna::query::filter::parse_filter_query;
use talna::query::plan::format_key;
use talna::smap::allocate_series_id;
use talna::{MetricName, SeriesKey};

/// An in-memory tag index: term -> stored posting-list bytes, sorted by term.
struct Index {
    terms: Vec<(String, Vec<u8>)>,
    all: Vec<u64>,
    counter: Option<Vec<u8>>,
    keys: Vec<String>,
}

impl Index {
    fn new() -> Self {
        Index { terms: vec![], all: vec![], counter: None, keys: vec![] }
    }

    fn index_term(&mut self, term: &str, id: u64) {
        let pos = self.terms.iter().position(|(t, _)| t == term);
        let old = pos.map(|p| self.terms[p].1.as_slice());
        let new = append_posting(old, id).unwrap();
        match pos {
            Some(p) => self.terms[p].1 = new,
            None => {
                self.terms.push((term.to_string(), new));
                self.terms.sort();
            }
        }
    }

    fn create(&mut self, metric: &str, tags: &[(&str, &str)]) -> u64 {
        let key = SeriesKey::format(MetricName::try_from(metric).unwrap(), tags);
        assert!(!self.keys.contains(&key));
        let (id, next) = allocate_series_id(self.counter.as_deref()).unwrap();
        self.counter = Some(next);
        self.keys.push(key);
        self.index_term(metric, id);
        for (k, v) in tags {
            self.index_term(&format_key(metric, k, v), id);
        }
        self.all.push(id);
        id
    }

    fn query_eq(&self, term: &str) -> Vec<u64> {
        match self.terms.iter().find(|(t, _)| t == term) {
            Some((_, bytes)) => deserialize_postings_list(bytes).unwrap(),
            None => vec![],
        }
    }

    fn query_prefix(&self, prefix: &str) -> Vec<u64> {
        let values: Vec<Vec<u8>> = self
            .terms
            .iter()
            .filter(|(t, _)| t.starts_with(prefix))
            .map(|(_, v)| v.clone())
            .collect();
        unite_stored_postings(&values).unwrap()
    }

    fn select(&self, metric: &str, filter: &str) -> Vec<u64> {
        let node = parse_filter_query(filter).unwrap();
        let postings: Vec<Vec<u64>> = node
            .lookups(metric)
            .iter()
            .map(|l| if l.prefix { self.query_prefix(&l.term) } else { self.query_eq(&l.term) })
            .collect();
        node.evaluate(&postings, &self.all)
    }
}

#[test]
fn filter_intersection_selects_one_series() {
    let mut ix = Index::new();
    let first = ix.create("cpu.total", &[("env", "prod"), ("service", "db")]);
    ix.create("cpu.total", &[("env", "dev"), ("service", "db")]);
    ix.create("cpu.total", &[("env", "prod"), ("service", "ui")]);
    assert_eq!(vec![first], ix.select("cpu.total", "env:prod AND service:db"));
}

#[test]
fn wildcard_selects_prefix_matches() {
    let mut ix = Index::new();
    let mut ids = vec![];
    for s in ["prod-db", "staging-db", "test-db", "prod-ui", "staging-ui", "test-ui"] {
        ids.push(ix.create("cpu.total", &[("service", s)]));
    }
    assert_eq!(vec![ids[0], ids[3]], ix.select("cpu.total", "service:prod-*"));
}

#[test]
fn test_tag_index_prefix() {
    let mut ix = Index::new();
    for s in ["prod-db", "staging-db", "test-db", "prod-ui", "staging-ui", "test-ui"] {
        ix.create("cpu.total", &[("service", s)]);
    }
    assert_eq!(vec![0, 3], ix.query_prefix("cpu.total#service:prod-"));
}

fn eight_series() -> Index {
    let mut ix = Index::new();
    for (env, service) in [
        ("prod", "db"),
        ("dev", "db"),
        ("test", "db"),
        ("staging", "db"),
        ("prod", "ui"),
        ("dev", "ui"),
        ("test", "ui"),
        ("staging", "ui"),
    ] {
        ix.create("cpu.total", &[("env", env), ("service", service)]);
    }
    ix
}

#[test]
fn negation_selects_the_rest() {
    let ix = eight_series();
    assert_eq!(vec![1, 2, 3, 5, 6, 7], ix.select("cpu.total", "! env:prod"));
}

#[test]
fn test_tag_index_eq() {
    let ix = eight_series();
    assert_eq!(vec![0, 1, 2, 3, 4, 5, 6, 7], ix.query_eq("cpu.total"));
    assert_eq!(vec![0, 4], ix.query_eq("cpu.total#env:prod"));
    assert_eq!(vec![4, 5, 6, 7], ix.query_eq("cpu.total#service:ui"));
}

#[test]
fn star_selects_every_series_of_the_metric() {
    let mut ix = eight_series();
    ix.create("mem.used", &[("env", "prod")]);
    assert_eq!(vec![0, 1, 2, 3, 4, 5, 6, 7], ix.select("cpu.total", "*"));
    assert_eq!(vec![8], ix.select("mem.used", "*"));
}

#[test]
fn or_and_not_combine() {
    let ix = eight_series();
    assert_eq!(vec![0, 1, 4, 5], ix.select("cpu.total", "env:prod OR env:dev"));
    assert_eq!(vec![1, 5], ix.select("cpu.total", "(env:prod OR env:dev) AND !env:prod"));
    assert_eq!(Vec::<u64>::new(), ix.select("cpu.total", "env:none"));
}

#[test]
fn lookups_follow_the_atoms() {
    let node = parse_filter_query("env:prod AND !(service:db* OR *)").unwrap();
    let ls = node.lookups("cpu");
    let got: Vec<(String, bool)> = ls.into_iter().map(|l| (l.term, l.prefix)).collect();
    assert_eq!(
        vec![
            ("cpu#env:prod".to_string(), false),
            ("cpu#service:db".to_string(), true),
            ("cpu".to_string(), false),
        ],
        got
    );
    assert_eq!(3, node.leaf_count());
}

#[test]
fn evaluate_sorts_and_dedups_atom_lists() {
    let node = parse_filter_query("a:b").unwrap();
    assert_eq!(vec![1, 2, 5], node.evaluate(&[vec![5, 1, 2, 1]], &[]));
}

#[test]
fn evaluate_and_of_disjoint_lists_is_empty() {
    let node = parse_filter_query("a:b AND c:d").unwrap();
    assert_eq!(Vec::<u64>::new(), node.evaluate(&[vec![1, 2], vec![3]], &[1, 2, 3]));
}

#[test]
fn negation_is_detected() {
    assert!(!parse_filter_query("a:b AND (c:d OR *)").unwrap().negates());
    assert!(parse_filter_query("a:b AND (c:d OR !e:f)").unwrap().negates());
    assert!(parse_filter_query("!*").unwrap().negates());
}
