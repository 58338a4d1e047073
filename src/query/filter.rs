//! Filter expressions: the tree, its parser, and the planner's set algebra.
use vstd::prelude::*;
use vstd::string::*;
use crate::Error;
pub use crate::query::postings::{intersection, union};
use crate::query::lexer::{
    key_run, key_run_exec, lex, lexemes, tokenize_filter_query, Lexeme, Token,
};

verus! {

broadcast use vstd::std_specs::vec::axiom_vec_index_decreases;

/// A `key:value` pair of a filter atom.
#[derive(Debug, PartialEq, Eq)]
pub struct Tag<'a> {
    pub key: &'a str,
    pub value: &'a str,
}

/// A parsed filter expression.
#[derive(Debug, PartialEq, Eq)]
pub enum Node<'a> {
    And(Vec<Node<'a>>),
    Or(Vec<Node<'a>>),
    Eq(Tag<'a>),
    Wildcard(Tag<'a>),
    Not(Box<Node<'a>>),
    AllStar,
}

/// The mathematical form of a filter expression.
pub enum FilterExpr {
    And(Seq<FilterExpr>),
    Or(Seq<FilterExpr>),
    Eq(Seq<char>, Seq<char>),
    Wildcard(Seq<char>, Seq<char>),
    Not(Box<FilterExpr>),
    AllStar,
}

/// The forms of the first `k` children.
pub open spec fn children_view<'a>(cs: Vec<Node<'a>>, k: nat) -> Seq<FilterExpr>
    decreases cs, k,
{
    if k == 0 || k > cs.len() {
        Seq::empty()
    } else {
        children_view(cs, (k - 1) as nat).push(cs[k - 1].expr())
    }
}

impl<'a> Node<'a> {
    pub open spec fn expr(&self) -> FilterExpr
        decreases self, 0nat,
    {
        match self {
            Node::And(cs) => FilterExpr::And(children_view(*cs, cs@.len())),
            Node::Or(cs) => FilterExpr::Or(children_view(*cs, cs@.len())),
            Node::Eq(t) => FilterExpr::Eq(t.key@, t.value@),
            Node::Wildcard(t) => FilterExpr::Wildcard(t.key@, t.value@),
            Node::Not(c) => FilterExpr::Not(Box::new(c.expr())),
            Node::AllStar => FilterExpr::AllStar,
        }
    }
}


pub proof fn lemma_children_view<'a>(cs: Vec<Node<'a>>, k: nat)
    requires
        k <= cs@.len(),
    ensures
        children_view(cs, k).len() == k,
        forall|i: int| 0 <= i < k ==> children_view(cs, k)[i] == cs@[i].expr(),
    decreases k,
{
    if k > 0 {
        lemma_children_view(cs, (k - 1) as nat);
    }
}

/// How an expression is written out: atoms as `key:value` and
/// `key:prefix*`, groups in parentheses with ` AND ` or ` OR ` between the
/// members, negation as `!(...)`.
pub open spec fn expr_text(e: FilterExpr) -> Seq<char>
    decreases e, 0nat,
{
    match e {
        FilterExpr::Eq(k, v) => k + seq![':'] + v,
        FilterExpr::Wildcard(k, v) => k + seq![':'] + v + seq!['*'],
        FilterExpr::And(cs) => seq!['('] + texts_joined(cs, cs.len(), seq![' ', 'A', 'N', 'D', ' ']) + seq![')'],
        FilterExpr::Or(cs) => seq!['('] + texts_joined(cs, cs.len(), seq![' ', 'O', 'R', ' ']) + seq![')'],
        FilterExpr::AllStar => seq!['*'],
        FilterExpr::Not(c) => seq!['!', '('] + expr_text(*c) + seq![')'],
    }
}

/// The texts of the first `k` expressions, `sep` between them.
pub open spec fn texts_joined(cs: Seq<FilterExpr>, k: nat, sep: Seq<char>) -> Seq<char>
    decreases cs, k,
{
    if k == 0 || k > cs.len() {
        Seq::empty()
    } else if k == 1 {
        expr_text(cs[0])
    } else {
        texts_joined(cs, (k - 1) as nat, sep) + sep + expr_text(cs[k - 1])
    }
}

impl<'a> Node<'a> {
    /// Writes the expression out, e.g. `(env:prod AND !(service:db*))`.
    pub fn to_text(&self) -> (r: String)
        ensures
            r@ == expr_text(self.expr()),
        decreases self,
    {
        proof {
            reveal_strlit(":");
            reveal_strlit("*");
            reveal_strlit("(");
            reveal_strlit(")");
            reveal_strlit("!(");
            reveal_strlit(" AND ");
            reveal_strlit(" OR ");
        }
        match self {
            Node::Eq(t) => {
                let mut s = String::from_str(t.key);
                s.append(":");
                s.append(t.value);
                assert(s@ =~= expr_text(self.expr()));
                s
            },
            Node::Wildcard(t) => {
                let mut s = String::from_str(t.key);
                s.append(":");
                s.append(t.value);
                s.append("*");
                assert(s@ =~= expr_text(self.expr()));
                s
            },
            Node::AllStar => {
                let s = String::from_str("*");
                assert(s@ =~= expr_text(self.expr()));
                s
            },
            Node::Not(c) => {
                let inner = c.to_text();
                let mut s = String::from_str("!(");
                s.append(inner.as_str());
                s.append(")");
                assert(s@ =~= expr_text(self.expr()));
                s
            },
            Node::And(cs) | Node::Or(cs) => {
                let sep = if let Node::And(_) = self { " AND " } else { " OR " };
                let ghost sep_chars = if self is And {
                    seq![' ', 'A', 'N', 'D', ' ']
                } else {
                    seq![' ', 'O', 'R', ' ']
                };
                assert(sep@ =~= sep_chars);
                let ghost view = children_view(*cs, cs@.len());
                proof {
                    lemma_children_view(*cs, cs@.len());
                    assert(decreases_to!(*self => *cs));
                }
                let mut body = String::new();
                let mut k: usize = 0;
                assert(body@ =~= texts_joined(view, 0, sep_chars));
                while k < cs.len()
                    invariant
                        decreases_to!(*self => *cs),
                        view == children_view(*cs, cs@.len()),
                        view.len() == cs@.len(),
                        forall|i: int| 0 <= i < cs@.len() ==> view[i] == cs@[i].expr(),
                        sep@ == sep_chars,
                        k <= cs@.len(),
                        body@ == texts_joined(view, k as nat, sep_chars),
                    decreases cs@.len() - k,
                {
                    proof {
                        assert(decreases_to!(*cs => cs[k as int]));
                        assert(decreases_to!(*self => cs[k as int]));
                    }
                    let part = cs[k].to_text();
                    if k > 0 {
                        body.append(sep);
                    }
                    body.append(part.as_str());
                    assert(body@ =~= texts_joined(view, (k + 1) as nat, sep_chars));
                    k = k + 1;
                }
                let mut s = String::from_str("(");
                s.append(body.as_str());
                s.append(")");
                assert(s@ =~= expr_text(self.expr()));
                s
            },
        }
    }
}

/// Where the value of an atom starts: after the first `:`.
pub open spec fn value_start(x: Seq<char>) -> int {
    if key_run(x, 0) < x.len() {
        key_run(x, 0) + 1int
    } else {
        x.len() as int
    }
}

/// The atom `key:value` of an identifier token's text.
pub open spec fn eq_atom(x: Seq<char>) -> FilterExpr {
    FilterExpr::Eq(x.subrange(0, key_run(x, 0) as int), x.subrange(value_start(x), x.len() as int))
}

/// The atom `key:prefix*` of a wildcard token's text, without the star.
pub open spec fn wildcard_atom(x: Seq<char>) -> FilterExpr {
    let vs = value_start(x);
    let ve = if vs < x.len() { x.len() - 1 } else { vs };
    FilterExpr::Wildcard(x.subrange(0, key_run(x, 0) as int), x.subrange(vs, ve))
}

pub open spec fn is_tok(t: Seq<Lexeme>, i: int, l: Lexeme) -> bool {
    0 <= i < t.len() && t[i] == l
}

/// `or := and ("OR" and)*`: the expression that starts at `i`, and where it ends.
pub open spec fn parse_or(t: Seq<Lexeme>, i: int) -> Option<(FilterExpr, int)>
    decreases t.len() - i, 6nat,
{
    if 0 <= i <= t.len() {
        match parse_and(t, i) {
            Some((e, j)) => if i < j <= t.len() {
                parse_or_rest(t, e, j)
            } else {
                None
            },
            None => None,
        }
    } else {
        None
    }
}

/// The `("OR" and)*` tail after the operand `acc`, grouped to the left.
pub open spec fn parse_or_rest(t: Seq<Lexeme>, acc: FilterExpr, j: int) -> Option<(FilterExpr, int)>
    decreases t.len() - j, 5nat,
{
    if 0 <= j <= t.len() {
        if is_tok(t, j, Lexeme::Or) {
            match parse_and(t, j + 1) {
                Some((e, k)) => if j < k <= t.len() {
                    parse_or_rest(t, FilterExpr::Or(seq![acc, e]), k)
                } else {
                    None
                },
                None => None,
            }
        } else {
            Some((acc, j))
        }
    } else {
        None
    }
}

/// `and := unary ("AND" unary)*`.
pub open spec fn parse_and(t: Seq<Lexeme>, i: int) -> Option<(FilterExpr, int)>
    decreases t.len() - i, 4nat,
{
    if 0 <= i <= t.len() {
        match parse_unary(t, i) {
            Some((e, j)) => if i < j <= t.len() {
                parse_and_rest(t, e, j)
            } else {
                None
            },
            None => None,
        }
    } else {
        None
    }
}

/// The `("AND" unary)*` tail after the operand `acc`, grouped to the left.
pub open spec fn parse_and_rest(t: Seq<Lexeme>, acc: FilterExpr, j: int) -> Option<(FilterExpr, int)>
    decreases t.len() - j, 3nat,
{
    if 0 <= j <= t.len() {
        if is_tok(t, j, Lexeme::And) {
            match parse_unary(t, j + 1) {
                Some((e, k)) => if j < k <= t.len() {
                    parse_and_rest(t, FilterExpr::And(seq![acc, e]), k)
                } else {
                    None
                },
                None => None,
            }
        } else {
            Some((acc, j))
        }
    } else {
        None
    }
}

/// `unary := "!" unary | primary`.
pub open spec fn parse_unary(t: Seq<Lexeme>, i: int) -> Option<(FilterExpr, int)>
    decreases t.len() - i, 2nat,
{
    if 0 <= i < t.len() {
        if t[i] == Lexeme::Not {
            match parse_unary(t, i + 1) {
                Some((e, k)) => Some((FilterExpr::Not(Box::new(e)), k)),
                None => None,
            }
        } else {
            parse_primary(t, i)
        }
    } else {
        None
    }
}

/// `primary := "*" | atom | "(" or ")"`.
pub open spec fn parse_primary(t: Seq<Lexeme>, i: int) -> Option<(FilterExpr, int)>
    decreases t.len() - i, 1nat,
{
    if 0 <= i < t.len() {
        match t[i] {
            Lexeme::Star => Some((FilterExpr::AllStar, i + 1)),
            Lexeme::Identifier(x) => Some((eq_atom(x), i + 1)),
            Lexeme::Wildcard(x) => Some((wildcard_atom(x), i + 1)),
            Lexeme::Open => match parse_or(t, i + 1) {
                Some((e, k)) => if is_tok(t, k, Lexeme::Close) {
                    Some((e, k + 1))
                } else {
                    None
                },
                None => None,
            },
            _ => None,
        }
    } else {
        None
    }
}

/// The expression that a whole token sequence stands for.
pub open spec fn parse_tokens(t: Seq<Lexeme>) -> Option<FilterExpr> {
    match parse_or(t, 0) {
        Some((e, j)) => if j == t.len() {
            Some(e)
        } else {
            None
        },
        None => None,
    }
}

/// The expression that a filter text stands for, or `None` where the
/// text is no filter.
pub open spec fn filter_of(s: Seq<char>) -> Option<FilterExpr> {
    match lex(s) {
        Some(t) => parse_tokens(t),
        None => None,
    }
}

/// A token that can end an operand: an atom, `*` or `)`.
pub open spec fn closes_operand(l: Lexeme) -> bool {
    l is Identifier || l is Wildcard || l is Star || l is Close
}

/// A token that can start an operand: an atom, `*`, `(` or `!`.
pub open spec fn opens_operand(l: Lexeme) -> bool {
    l is Identifier || l is Wildcard || l is Star || l is Open || l is Not
}

/// Opening minus closing parentheses.
pub open spec fn paren_balance(t: Seq<Lexeme>) -> int
    decreases t.len(),
{
    if t.len() == 0 {
        0
    } else {
        paren_balance(t.drop_last()) + if t.last() is Open {
            1int
        } else if t.last() is Close {
            -1int
        } else {
            0int
        }
    }
}

/// What a successful parse from `i` to `j` consumed: it ends an operand and
/// its parentheses balance.
pub open spec fn well_closed(t: Seq<Lexeme>, i: int, j: int) -> bool {
    &&& 0 <= i < j <= t.len()
    &&& closes_operand(t[j - 1])
    &&& paren_balance(t.subrange(i, j)) == 0
}

proof fn lemma_balance_add(a: Seq<Lexeme>, b: Seq<Lexeme>)
    ensures
        paren_balance(a + b) == paren_balance(a) + paren_balance(b),
    decreases b.len(),
{
    if b.len() == 0 {
        assert(a + b =~= a);
    } else {
        lemma_balance_add(a, b.drop_last());
        assert((a + b).drop_last() =~= a + b.drop_last());
    }
}

proof fn lemma_balance_split(t: Seq<Lexeme>, i: int, j: int, k: int)
    requires
        0 <= i <= j <= k <= t.len(),
    ensures
        paren_balance(t.subrange(i, k)) == paren_balance(t.subrange(i, j)) + paren_balance(t.subrange(j, k)),
{
    assert(t.subrange(i, k) =~= t.subrange(i, j) + t.subrange(j, k));
    lemma_balance_add(t.subrange(i, j), t.subrange(j, k));
}

proof fn lemma_balance_one(t: Seq<Lexeme>, i: int)
    requires
        0 <= i < t.len(),
    ensures
        paren_balance(t.subrange(i, i + 1)) == if t[i] is Open {
            1int
        } else if t[i] is Close {
            -1int
        } else {
            0int
        },
{
    let u = t.subrange(i, i + 1);
    assert(u.drop_last() =~= Seq::<Lexeme>::empty());
    assert(paren_balance(u.drop_last()) == 0);
    assert(u.last() == t[i]);
    assert(u.len() == 1);
}

proof fn lemma_or_closed(t: Seq<Lexeme>, i: int)
    ensures
        parse_or(t, i) matches Some((e, j)) ==> well_closed(t, i, j),
    decreases t.len() - i, 6nat,
{
    if 0 <= i <= t.len() {
        lemma_and_closed(t, i);
        if let Some((e, j)) = parse_and(t, i) {
            if i < j <= t.len() {
                lemma_or_rest_closed(t, e, j);
                if let Some((e2, k)) = parse_or_rest(t, e, j) {
                    lemma_balance_split(t, i, j, k);
                }
            }
        }
    }
}

proof fn lemma_or_rest_closed(t: Seq<Lexeme>, acc: FilterExpr, j: int)
    ensures
        parse_or_rest(t, acc, j) matches Some((e, k)) ==> j <= k <= t.len() && (j == k || well_closed(t, j, k)),
    decreases t.len() - j, 5nat,
{
    if 0 <= j <= t.len() && is_tok(t, j, Lexeme::Or) {
        lemma_and_closed(t, j + 1);
        if let Some((e, k)) = parse_and(t, j + 1) {
            if j < k <= t.len() {
                lemma_or_rest_closed(t, FilterExpr::Or(seq![acc, e]), k);
                if let Some((e2, m)) = parse_or_rest(t, FilterExpr::Or(seq![acc, e]), k) {
                    lemma_balance_one(t, j);
                    lemma_balance_split(t, j, j + 1, k);
                    lemma_balance_split(t, j, k, m);
                }
            }
        }
    }
}

proof fn lemma_and_closed(t: Seq<Lexeme>, i: int)
    ensures
        parse_and(t, i) matches Some((e, j)) ==> well_closed(t, i, j),
    decreases t.len() - i, 4nat,
{
    if 0 <= i <= t.len() {
        lemma_unary_closed(t, i);
        if let Some((e, j)) = parse_unary(t, i) {
            if i < j <= t.len() {
                lemma_and_rest_closed(t, e, j);
                if let Some((e2, k)) = parse_and_rest(t, e, j) {
                    lemma_balance_split(t, i, j, k);
                }
            }
        }
    }
}

proof fn lemma_and_rest_closed(t: Seq<Lexeme>, acc: FilterExpr, j: int)
    ensures
        parse_and_rest(t, acc, j) matches Some((e, k)) ==> j <= k <= t.len() && (j == k || well_closed(t, j, k)),
    decreases t.len() - j, 3nat,
{
    if 0 <= j <= t.len() && is_tok(t, j, Lexeme::And) {
        lemma_unary_closed(t, j + 1);
        if let Some((e, k)) = parse_unary(t, j + 1) {
            if j < k <= t.len() {
                lemma_and_rest_closed(t, FilterExpr::And(seq![acc, e]), k);
                if let Some((e2, m)) = parse_and_rest(t, FilterExpr::And(seq![acc, e]), k) {
                    lemma_balance_one(t, j);
                    lemma_balance_split(t, j, j + 1, k);
                    lemma_balance_split(t, j, k, m);
                }
            }
        }
    }
}

proof fn lemma_unary_closed(t: Seq<Lexeme>, i: int)
    ensures
        parse_unary(t, i) matches Some((e, j)) ==> well_closed(t, i, j),
    decreases t.len() - i, 2nat,
{
    if 0 <= i < t.len() {
        if t[i] == Lexeme::Not {
            lemma_unary_closed(t, i + 1);
            if let Some((e, k)) = parse_unary(t, i + 1) {
                lemma_balance_one(t, i);
                lemma_balance_split(t, i, i + 1, k);
            }
        } else {
            lemma_primary_closed(t, i);
        }
    }
}

proof fn lemma_primary_closed(t: Seq<Lexeme>, i: int)
    ensures
        parse_primary(t, i) matches Some((e, j)) ==> well_closed(t, i, j),
    decreases t.len() - i, 1nat,
{
    if 0 <= i < t.len() {
        lemma_balance_one(t, i);
        if t[i] is Open {
            lemma_or_closed(t, i + 1);
            if let Some((e, k)) = parse_or(t, i + 1) {
                if is_tok(t, k, Lexeme::Close) {
                    lemma_balance_one(t, k);
                    lemma_balance_split(t, i, i + 1, k);
                    lemma_balance_split(t, i, k, k + 1);
                }
            }
        }
    }
}

/// A token sequence is a filter only if it starts an operand (an atom,
/// `*`, `(` or `!`), ends one (an atom, `*` or `)`), and its parentheses
/// balance. So an empty filter, a dangling `AND`, `OR` or `!`, and an
/// unclosed or unopened parenthesis are all rejected.
pub proof fn lemma_filter_shape(t: Seq<Lexeme>)
    ensures
        parse_tokens(t) is Some ==> {
            &&& t.len() > 0
            &&& opens_operand(t[0])
            &&& closes_operand(t.last())
            &&& paren_balance(t) == 0
        },
{
    lemma_or_closed(t, 0);
    if let Some((e, j)) = parse_or(t, 0) {
        if j == t.len() {
            assert(t.subrange(0, j) =~= t);
            lemma_first_opens(t);
        }
    }
}

proof fn lemma_first_opens(t: Seq<Lexeme>)
    requires
        parse_or(t, 0) is Some,
    ensures
        opens_operand(t[0]),
{
    assert(parse_and(t, 0) is Some);
    assert(parse_unary(t, 0) is Some);
    if t[0] != Lexeme::Not {
        assert(parse_primary(t, 0) is Some);
    }
}

pub open spec fn parsed<'a>(r: Option<(Node<'a>, usize)>, spec_r: Option<(FilterExpr, int)>) -> bool {
    match r {
        Some((n, j)) => spec_r == Some((n.expr(), j as int)),
        None => spec_r is None,
    }
}

proof fn lemma_pair_view<'a>(a: Node<'a>, b: Node<'a>, v: Vec<Node<'a>>)
    requires
        v@ == seq![a, b],
    ensures
        children_view(v, v@.len()) == seq![a.expr(), b.expr()],
{
    assert(children_view(v, 0) =~= Seq::<FilterExpr>::empty());
    assert(children_view(v, 1) =~= seq![a.expr()]);
    assert(children_view(v, 2) =~= seq![a.expr(), b.expr()]);
}

fn atom_parts<'a>(x: &'a str, wildcard: bool) -> (r: Tag<'a>)
    ensures
        !wildcard ==> FilterExpr::Eq(r.key@, r.value@) == eq_atom(x@),
        wildcard ==> FilterExpr::Wildcard(r.key@, r.value@) == wildcard_atom(x@),
{
    let n = x.unicode_len();
    let k = key_run_exec(x, n, 0);
    let vs = if k < n { k + 1 } else { n };
    let ve = if wildcard && vs < n { n - 1 } else if wildcard { vs } else { n };
    Tag { key: x.substring_char(0, k), value: x.substring_char(vs, ve) }
}

fn parse_or_exec<'a>(t: &Vec<Token<'a>>, i: usize) -> (r: Option<(Node<'a>, usize)>)
    requires
        i <= t@.len(),
    ensures
        parsed(r, parse_or(lexemes(t@), i as int)),
    decreases t@.len() - i, 6nat,
{
    match parse_and_exec(t, i) {
        Some((e, j)) => if i < j && j <= t.len() {
            parse_or_rest_exec(t, e, j)
        } else {
            None
        },
        None => None,
    }
}

fn parse_or_rest_exec<'a>(t: &Vec<Token<'a>>, acc: Node<'a>, j: usize) -> (r: Option<(Node<'a>, usize)>)
    requires
        j <= t@.len(),
    ensures
        parsed(r, parse_or_rest(lexemes(t@), acc.expr(), j as int)),
    decreases t@.len() - j, 5nat,
{
    if j < t.len() && matches!(t[j], Token::Or) {
        match parse_and_exec(t, j + 1) {
            Some((e, k)) => if j < k && k <= t.len() {
                let ghost ae = acc.expr();
                let ghost ee = e.expr();
                let v = vec![acc, e];
                let node = Node::Or(v);
                proof {
                    lemma_pair_view(v@[0], v@[1], v);
                    assert(node.expr() == FilterExpr::Or(seq![ae, ee]));
                }
                parse_or_rest_exec(t, node, k)
            } else {
                None
            },
            None => None,
        }
    } else {
        Some((acc, j))
    }
}

fn parse_and_exec<'a>(t: &Vec<Token<'a>>, i: usize) -> (r: Option<(Node<'a>, usize)>)
    requires
        i <= t@.len(),
    ensures
        parsed(r, parse_and(lexemes(t@), i as int)),
    decreases t@.len() - i, 4nat,
{
    match parse_unary_exec(t, i) {
        Some((e, j)) => if i < j && j <= t.len() {
            parse_and_rest_exec(t, e, j)
        } else {
            None
        },
        None => None,
    }
}

fn parse_and_rest_exec<'a>(t: &Vec<Token<'a>>, acc: Node<'a>, j: usize) -> (r: Option<(Node<'a>, usize)>)
    requires
        j <= t@.len(),
    ensures
        parsed(r, parse_and_rest(lexemes(t@), acc.expr(), j as int)),
    decreases t@.len() - j, 3nat,
{
    if j < t.len() && matches!(t[j], Token::And) {
        match parse_unary_exec(t, j + 1) {
            Some((e, k)) => if j < k && k <= t.len() {
                let ghost ae = acc.expr();
                let ghost ee = e.expr();
                let v = vec![acc, e];
                let node = Node::And(v);
                proof {
                    lemma_pair_view(v@[0], v@[1], v);
                    assert(node.expr() == FilterExpr::And(seq![ae, ee]));
                }
                parse_and_rest_exec(t, node, k)
            } else {
                None
            },
            None => None,
        }
    } else {
        Some((acc, j))
    }
}

fn parse_unary_exec<'a>(t: &Vec<Token<'a>>, i: usize) -> (r: Option<(Node<'a>, usize)>)
    requires
        i <= t@.len(),
    ensures
        parsed(r, parse_unary(lexemes(t@), i as int)),
    decreases t@.len() - i, 2nat,
{
    if i < t.len() && matches!(t[i], Token::Not) {
        match parse_unary_exec(t, i + 1) {
            Some((e, k)) => Some((Node::Not(Box::new(e)), k)),
            None => None,
        }
    } else if i < t.len() {
        parse_primary_exec(t, i)
    } else {
        None
    }
}

fn parse_primary_exec<'a>(t: &Vec<Token<'a>>, i: usize) -> (r: Option<(Node<'a>, usize)>)
    requires
        i < t@.len(),
    ensures
        parsed(r, parse_primary(lexemes(t@), i as int)),
    decreases t@.len() - i, 1nat,
{
    let n = t.len();
    match &t[i] {
        Token::Star => Some((Node::AllStar, i + 1)),
        Token::Identifier(x) => {
            let tag = atom_parts(*x, false);
            Some((Node::Eq(tag), i + 1))
        },
        Token::Wildcard(x) => {
            let tag = atom_parts(*x, true);
            Some((Node::Wildcard(tag), i + 1))
        },
        Token::ParanOpen => match parse_or_exec(t, i + 1) {
            Some((e, k)) => if k < t.len() && matches!(t[k], Token::ParanClose) {
                Some((e, k + 1))
            } else {
                None
            },
            None => None,
        },
        _ => None,
    }
}

/// Parses a filter expression, e.g. `env:prod AND !(service:db OR service:ui*)`.
/// `!` binds tighter than `AND`, which binds tighter than `OR`; both are
/// grouped to the left; a lone `*` stands for every series.
pub fn parse_filter_query<'a>(s: &'a str) -> (r: Result<Node<'a>, Error>)
    ensures
        match r {
            Ok(n) => filter_of(s@) == Some(n.expr()),
            Err(e) => filter_of(s@) is None && e is InvalidQuery,
        },
{
    let toks = match tokenize_filter_query(s) {
        Ok(toks) => toks,
        Err(_) => {
            return Err(Error::InvalidQuery);
        },
    };
    match parse_or_exec(&toks, 0) {
        Some((n, j)) => if j == toks.len() {
            Ok(n)
        } else {
            Err(Error::InvalidQuery)
        },
        None => Err(Error::InvalidQuery),
    }
}

} // verus!
