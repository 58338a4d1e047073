use talna::query::filter::{intersection, parse_filter_query, union, Node, Tag};
use talna::query::lexer::{tokenize_filter_query, Token};
use talna::Error;

#[test]
fn test_parse_filter_query_1() {
    assert_eq!(
        Node::Eq(Tag {
            key: "hello",
            value: "world"
        }),
        parse_filter_query("hello:world").unwrap()
    );
}

#[test]
fn test_parse_filter_query_2() {
    assert_eq!(
        Node::Not(Box::new(Node::Eq(Tag {
            key: "hello",
            value: "world"
        }))),
        parse_filter_query("!hello:world").unwrap()
    );
}

#[test]
fn test_parse_filter_query_3() {
    assert_eq!(
        Node::Not(Box::new(Node::Or(vec![
            Node::Eq(Tag {
                key: "hello",
                value: "world"
            }),
            Node::Eq(Tag {
                key: "hallo",
                value: "welt"
            }),
        ]))),
        parse_filter_query("!(hello:world OR hallo:welt)").unwrap()
    );
}

#[test]
fn test_parse_filter_query_wildcard_1() {
    assert_eq!(
        Node::Wildcard(Tag {
            key: "service",
            value: "db-"
        }),
        parse_filter_query("service:db-*").unwrap()
    );
}

#[test]
fn test_intersection() {
    assert_eq!(
        [1, 3],
        *intersection(&[vec![1, 2, 3, 4, 5], vec![1, 3, 5], vec![1, 3]]),
    );
}

#[test]
fn test_union() {
    assert_eq!(
        [1, 2, 4, 8],
        *union(&[vec![1, 8], vec![1, 2], vec![1, 2, 4], vec![2, 4, 8]]),
    );
}

fn eq<'a>(key: &'a str, value: &'a str) -> Node<'a> {
    Node::Eq(Tag { key, value })
}

#[test]
fn parse_star_alone_and_padded() {
    assert_eq!(Node::AllStar, parse_filter_query("*").unwrap());
    assert_eq!(Node::AllStar, parse_filter_query("  *\t").unwrap());
}

#[test]
fn parse_and_binds_tighter_than_or() {
    assert_eq!(
        Node::Or(vec![eq("a", "1"), Node::And(vec![eq("b", "2"), eq("c", "3")])]),
        parse_filter_query("a:1 OR b:2 AND c:3").unwrap()
    );
}

#[test]
fn parse_not_binds_tighter_than_and() {
    assert_eq!(
        Node::And(vec![Node::Not(Box::new(eq("a", "1"))), eq("b", "2")]),
        parse_filter_query("!a:1 AND b:2").unwrap()
    );
}

#[test]
fn parse_operators_group_to_the_left() {
    assert_eq!(
        Node::And(vec![Node::And(vec![eq("a", "1"), eq("b", "2")]), eq("c", "3")]),
        parse_filter_query("a:1 AND b:2 AND c:3").unwrap()
    );
}

#[test]
fn parse_parentheses_override() {
    assert_eq!(
        Node::And(vec![eq("env", "prod"), Node::Or(vec![eq("service", "db"), eq("service", "ui")])]),
        parse_filter_query("env:prod AND (service:db OR service:ui)").unwrap()
    );
}

#[test]
fn parse_values_with_digits_dots_and_dashes() {
    assert_eq!(eq("host", "i-187.eu_1"), parse_filter_query("host:i-187.eu_1").unwrap());
}

#[test]
fn parse_unclosed_parenthesis_is_invalid() {
    assert_eq!(Err(Error::InvalidQuery), parse_filter_query("(a:b").map(|_| ()));
    assert_eq!(Err(Error::InvalidQuery), parse_filter_query("(a:b OR c:d").map(|_| ()));
    assert_eq!(Err(Error::InvalidQuery), parse_filter_query("a:b)").map(|_| ()));
}

#[test]
fn parse_dangling_operator_is_invalid() {
    assert_eq!(Err(Error::InvalidQuery), parse_filter_query("a:b AND").map(|_| ()));
    assert_eq!(Err(Error::InvalidQuery), parse_filter_query("OR a:b").map(|_| ()));
    assert_eq!(Err(Error::InvalidQuery), parse_filter_query("!").map(|_| ()));
    assert_eq!(Err(Error::InvalidQuery), parse_filter_query("a:b !").map(|_| ()));
}

#[test]
fn parse_malformed_text_is_invalid() {
    assert_eq!(Err(Error::InvalidQuery), parse_filter_query("").map(|_| ()));
    assert_eq!(Err(Error::InvalidQuery), parse_filter_query("()").map(|_| ()));
    assert_eq!(Err(Error::InvalidQuery), parse_filter_query("hello").map(|_| ()));
    assert_eq!(Err(Error::InvalidQuery), parse_filter_query("a:b c:d").map(|_| ()));
    assert_eq!(Err(Error::InvalidQuery), parse_filter_query("a:b;c").map(|_| ()));
}

#[test]
fn tokenize_keywords_and_atoms() {
    let toks = tokenize_filter_query("!(a:b AND ANDROID:x* OR c:d)").unwrap();
    assert_eq!(
        vec![
            Token::Not,
            Token::ParanOpen,
            Token::Identifier("a:b"),
            Token::And,
            Token::Wildcard("ANDROID:x*"),
            Token::Or,
            Token::Identifier("c:d"),
            Token::ParanClose,
        ],
        toks
    );
}

#[test]
fn tokenize_rejects_unknown_text() {
    assert!(tokenize_filter_query("a:b # c:d").is_err());
}

#[test]
fn intersection_edge_cases() {
    assert_eq!(Vec::<u64>::new(), intersection(&[]));
    assert_eq!(vec![4, 2], intersection(&[vec![4, 2]]));
    assert_eq!(Vec::<u64>::new(), intersection(&[vec![1, 2], vec![]]));
    assert_eq!(Vec::<u64>::new(), intersection(&[vec![], vec![1]]));
}

#[test]
fn union_edge_cases() {
    assert_eq!(Vec::<u64>::new(), union(&[]));
    assert_eq!(vec![1, 2, 3], union(&[vec![3, 1, 2, 3]]));
    assert_eq!(vec![0, u64::MAX], union(&[vec![u64::MAX], vec![0, u64::MAX]]));
}

#[test]
fn node_text() {
    let n = parse_filter_query("!a:b AND (c:d* OR *)").unwrap();
    assert_eq!("(!(a:b) AND (c:d* OR *))", n.to_text());
    assert_eq!("hello:world", parse_filter_query("hello:world").unwrap().to_text());
}

#[test]
fn parse_star_with_unicode_white_space() {
    assert_eq!(Node::AllStar, parse_filter_query("\u{b}*").unwrap());
    assert_eq!(Node::AllStar, parse_filter_query("\u{a0}*\u{3000}").unwrap());
    assert_eq!(eq("a", "b"), parse_filter_query("\u{85}a:b\u{2028}").unwrap());
}

#[test]
fn parse_operator_without_operand_is_invalid() {
    assert_eq!(Err(Error::InvalidQuery), parse_filter_query("a:b AND OR c:d").map(|_| ()));
    assert_eq!(Err(Error::InvalidQuery), parse_filter_query("hello:world AND").map(|_| ()));
    assert_eq!(Err(Error::InvalidQuery), parse_filter_query("OR hello:world").map(|_| ()));
    assert_eq!(Err(Error::InvalidQuery), parse_filter_query("hello:world)").map(|_| ()));
}
