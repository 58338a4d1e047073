//! The planner: from a filter expression and the posting lists of its atoms
//! to the ascending set of matching series.
use vstd::prelude::*;
use crate::query::filter::{children_view, lemma_children_view, FilterExpr, Node};
use crate::query::postings::{in_any, intersection, intersection_of, strictly_sorted, union};
use crate::SeriesId;
use vstd::string::*;

verus! {

broadcast use vstd::std_specs::vec::axiom_vec_index_decreases;

/// The atoms of an expression, in order.
pub open spec fn atoms(e: FilterExpr) -> Seq<FilterExpr>
    decreases e, 0nat,
{
    match e {
        FilterExpr::And(cs) => atoms_list(cs, cs.len()),
        FilterExpr::Or(cs) => atoms_list(cs, cs.len()),
        FilterExpr::Not(c) => atoms(*c),
        _ => seq![e],
    }
}

pub open spec fn atoms_list(cs: Seq<FilterExpr>, k: nat) -> Seq<FilterExpr>
    decreases cs, k,
{
    if k == 0 || k > cs.len() {
        Seq::empty()
    } else {
        atoms_list(cs, (k - 1) as nat) + atoms(cs[k - 1])
    }
}

/// Whether series `id` matches an expression, where `holds(a, id)` says
/// whether it matches atom `a`. An `AND` of nothing matches nothing.
pub open spec fn matches(e: FilterExpr, holds: spec_fn(FilterExpr, SeriesId) -> bool, id: SeriesId) -> bool
    decreases e, 0nat,
{
    match e {
        FilterExpr::And(cs) => all_match(cs, cs.len(), holds, id),
        FilterExpr::Or(cs) => any_match(cs, cs.len(), holds, id),
        FilterExpr::Not(c) => !matches(*c, holds, id),
        _ => holds(e, id),
    }
}

pub open spec fn all_match(cs: Seq<FilterExpr>, k: nat, holds: spec_fn(FilterExpr, SeriesId) -> bool, id: SeriesId) -> bool
    decreases cs, k,
{
    if k == 0 || k > cs.len() {
        false
    } else if k == 1 {
        matches(cs[0], holds, id)
    } else {
        all_match(cs, (k - 1) as nat, holds, id) && matches(cs[k - 1], holds, id)
    }
}

pub open spec fn any_match(cs: Seq<FilterExpr>, k: nat, holds: spec_fn(FilterExpr, SeriesId) -> bool, id: SeriesId) -> bool
    decreases cs, k,
{
    if k == 0 || k > cs.len() {
        false
    } else {
        any_match(cs, (k - 1) as nat, holds, id) || matches(cs[k - 1], holds, id)
    }
}

/// The series of `all` that match `e`.
pub open spec fn naive_filter(e: FilterExpr, holds: spec_fn(FilterExpr, SeriesId) -> bool, all: Set<SeriesId>) -> Set<SeriesId> {
    all.filter(|id: SeriesId| matches(e, holds, id))
}

/// Each posting list holds exactly the series of `all` that match its atom.
pub open spec fn postings_exact(
    e: FilterExpr,
    p: Seq<Seq<SeriesId>>,
    all: Set<SeriesId>,
    holds: spec_fn(FilterExpr, SeriesId) -> bool,
) -> bool {
    &&& p.len() == atoms(e).len()
    &&& forall|i: int| 0 <= i < p.len() ==> (#[trigger] p[i]).to_set() == all.filter(
        |id: SeriesId| holds(atoms(e)[i], id),
    )
}

/// The number of atoms (`*`, `key:value`, `key:prefix*`) in an expression;
/// each is answered by one posting list.
pub open spec fn leaf_count(e: FilterExpr) -> nat
    decreases e, 0nat,
{
    match e {
        FilterExpr::And(cs) => leaf_count_list(cs, cs.len()),
        FilterExpr::Or(cs) => leaf_count_list(cs, cs.len()),
        FilterExpr::Not(c) => leaf_count(*c),
        _ => 1,
    }
}

/// The atoms of the first `k` expressions of `cs`.
pub open spec fn leaf_count_list(cs: Seq<FilterExpr>, k: nat) -> nat
    decreases cs, k,
{
    if k == 0 || k > cs.len() {
        0
    } else {
        leaf_count_list(cs, (k - 1) as nat) + leaf_count(cs[k - 1])
    }
}

/// The posting lists that belong to child `i` of `cs`.
pub open spec fn child_postings(cs: Seq<FilterExpr>, i: int, p: Seq<Seq<SeriesId>>) -> Seq<Seq<SeriesId>> {
    p.subrange(leaf_count_list(cs, i as nat) as int, leaf_count_list(cs, (i + 1) as nat) as int)
}

/// The series an expression selects, given the posting list of each of its
/// atoms in order (`p`) and every series there is (`all`).
pub open spec fn eval(e: FilterExpr, p: Seq<Seq<SeriesId>>, all: Set<SeriesId>) -> Set<SeriesId>
    decreases e, 0nat,
{
    match e {
        FilterExpr::And(cs) => eval_and(cs, cs.len(), p, all),
        FilterExpr::Or(cs) => eval_or(cs, cs.len(), p, all),
        FilterExpr::Not(c) => all.difference(eval(*c, p, all)),
        _ => if p.len() > 0 {
            p[0].to_set()
        } else {
            Set::empty()
        },
    }
}

/// The series that all of the first `k` children select; none where `k` is 0.
pub open spec fn eval_and(cs: Seq<FilterExpr>, k: nat, p: Seq<Seq<SeriesId>>, all: Set<SeriesId>) -> Set<SeriesId>
    decreases cs, k,
{
    if k == 0 || k > cs.len() {
        Set::empty()
    } else if k == 1 {
        eval(cs[0], child_postings(cs, 0, p), all)
    } else {
        eval_and(cs, (k - 1) as nat, p, all).intersect(eval(cs[k - 1], child_postings(cs, k - 1, p), all))
    }
}

/// The series that some of the first `k` children select.
pub open spec fn eval_or(cs: Seq<FilterExpr>, k: nat, p: Seq<Seq<SeriesId>>, all: Set<SeriesId>) -> Set<SeriesId>
    decreases cs, k,
{
    if k == 0 || k > cs.len() {
        Set::empty()
    } else {
        eval_or(cs, (k - 1) as nat, p, all).union(eval(cs[k - 1], child_postings(cs, k - 1, p), all))
    }
}

/// A posting-list lookup in the tag index: an exact term, or every term
/// that starts with a prefix.
#[derive(Debug)]
pub struct Lookup {
    pub term: String,
    pub prefix: bool,
}

/// The term of a tag: `metric#key:value`.
pub open spec fn tag_term(metric: Seq<char>, key: Seq<char>, value: Seq<char>) -> Seq<char> {
    metric + seq!['#'] + key + seq![':'] + value
}

/// The lookups of an expression's atoms, in order: `*` reads the metric's
/// own list, `key:value` the list of its term, `key:prefix*` all lists whose
/// term starts with `metric#key:prefix`.
pub open spec fn atom_lookups(e: FilterExpr, metric: Seq<char>) -> Seq<(Seq<char>, bool)>
    decreases e, 0nat,
{
    match e {
        FilterExpr::And(cs) => lookups_list(cs, cs.len(), metric),
        FilterExpr::Or(cs) => lookups_list(cs, cs.len(), metric),
        FilterExpr::Not(c) => atom_lookups(*c, metric),
        FilterExpr::AllStar => seq![(metric, false)],
        FilterExpr::Eq(k, v) => seq![(tag_term(metric, k, v), false)],
        FilterExpr::Wildcard(k, v) => seq![(tag_term(metric, k, v), true)],
    }
}

pub open spec fn lookups_list(cs: Seq<FilterExpr>, k: nat, metric: Seq<char>) -> Seq<(Seq<char>, bool)>
    decreases cs, k,
{
    if k == 0 || k > cs.len() {
        Seq::empty()
    } else {
        lookups_list(cs, (k - 1) as nat, metric) + atom_lookups(cs[k - 1], metric)
    }
}

pub open spec fn lookups_view(v: Seq<Lookup>) -> Seq<(Seq<char>, bool)> {
    v.map_values(|l: Lookup| (l.term@, l.prefix))
}

proof fn lemma_lookups_len(e: FilterExpr, metric: Seq<char>)
    ensures
        atom_lookups(e, metric).len() == leaf_count(e),
    decreases e, 0nat,
{
    match e {
        FilterExpr::And(cs) => lemma_lookups_list_len(cs, cs.len(), metric),
        FilterExpr::Or(cs) => lemma_lookups_list_len(cs, cs.len(), metric),
        FilterExpr::Not(c) => lemma_lookups_len(*c, metric),
        _ => {},
    }
}

proof fn lemma_lookups_list_len(cs: Seq<FilterExpr>, k: nat, metric: Seq<char>)
    ensures
        lookups_list(cs, k, metric).len() == leaf_count_list(cs, k),
    decreases cs, k,
{
    if k > 0 && k <= cs.len() {
        lemma_lookups_list_len(cs, (k - 1) as nat, metric);
        lemma_lookups_len(cs[k - 1], metric);
    }
}

/// The index term of a tag: `metric#key:value`.
pub fn format_key(metric_name: &str, key: &str, value: &str) -> (r: String)
    ensures
        r@ == tag_term(metric_name@, key@, value@),
{
    let mut s = String::from_str(metric_name);
    proof {
        reveal_strlit("#");
        reveal_strlit(":");
    }
    s.append("#");
    s.append(key);
    s.append(":");
    s.append(value);
    assert(s@ =~= tag_term(metric_name@, key@, value@));
    s
}

proof fn lemma_atoms_len(e: FilterExpr)
    ensures
        atoms(e).len() == leaf_count(e),
    decreases e, 0nat,
{
    match e {
        FilterExpr::And(cs) => lemma_atoms_list(cs, cs.len()),
        FilterExpr::Or(cs) => lemma_atoms_list(cs, cs.len()),
        FilterExpr::Not(c) => lemma_atoms_len(*c),
        _ => {},
    }
}

proof fn lemma_atoms_list(cs: Seq<FilterExpr>, k: nat)
    ensures
        atoms_list(cs, k).len() == leaf_count_list(cs, k),
        k <= cs.len() ==> forall|i: int| 0 <= i < k ==> #[trigger] atoms_list(cs, k).subrange(
            leaf_count_list(cs, i as nat) as int,
            leaf_count_list(cs, (i + 1) as nat) as int,
        ) == atoms(cs[i]),
    decreases cs, k,
{
    if k > 0 && k <= cs.len() {
        lemma_atoms_list(cs, (k - 1) as nat);
        lemma_atoms_len(cs[k - 1]);
        let prev = atoms_list(cs, (k - 1) as nat);
        let cur = atoms_list(cs, k);
        assert forall|i: int| 0 <= i < k implies #[trigger] cur.subrange(
            leaf_count_list(cs, i as nat) as int,
            leaf_count_list(cs, (i + 1) as nat) as int,
        ) == atoms(cs[i]) by {
            if i < k - 1 {
                lemma_leaf_count_mono(cs, (i + 1) as nat, (k - 1) as nat);
                assert(cur.subrange(
                    leaf_count_list(cs, i as nat) as int,
                    leaf_count_list(cs, (i + 1) as nat) as int,
                ) =~= prev.subrange(
                    leaf_count_list(cs, i as nat) as int,
                    leaf_count_list(cs, (i + 1) as nat) as int,
                ));
            } else {
                assert(cur.subrange(
                    leaf_count_list(cs, i as nat) as int,
                    leaf_count_list(cs, (i + 1) as nat) as int,
                ) =~= atoms(cs[i]));
            }
        }
    }
}

proof fn lemma_child_exact(
    cs: Seq<FilterExpr>,
    i: int,
    p: Seq<Seq<SeriesId>>,
    all: Set<SeriesId>,
    holds: spec_fn(FilterExpr, SeriesId) -> bool,
)
    requires
        0 <= i < cs.len(),
        p.len() == atoms_list(cs, cs.len()).len(),
        forall|j: int| 0 <= j < p.len() ==> (#[trigger] p[j]).to_set() == all.filter(
            |id: SeriesId| holds(atoms_list(cs, cs.len())[j], id),
        ),
    ensures
        postings_exact(cs[i], child_postings(cs, i, p), all, holds),
{
    lemma_atoms_list(cs, cs.len());
    lemma_leaf_count_mono(cs, (i + 1) as nat, cs.len());
    lemma_leaf_count_mono(cs, i as nat, (i + 1) as nat);
    let lo = leaf_count_list(cs, i as nat) as int;
    let hi = leaf_count_list(cs, (i + 1) as nat) as int;
    let sub = atoms_list(cs, cs.len()).subrange(lo, hi);
    assert(sub == atoms(cs[i]));
    let cp = child_postings(cs, i, p);
    assert forall|j: int| 0 <= j < cp.len() implies (#[trigger] cp[j]).to_set() == all.filter(
        |id: SeriesId| holds(atoms(cs[i])[j], id),
    ) by {
        assert(cp[j] == p[lo + j]);
        assert(sub[j] == atoms_list(cs, cs.len())[lo + j]);
    }
}

proof fn lemma_and_fold(
    cs: Seq<FilterExpr>,
    k: nat,
    p: Seq<Seq<SeriesId>>,
    all: Set<SeriesId>,
    holds: spec_fn(FilterExpr, SeriesId) -> bool,
)
    requires
        k <= cs.len(),
        forall|i: int| 0 <= i < cs.len() ==> #[trigger] eval(cs[i], child_postings(cs, i, p), all)
            == naive_filter(cs[i], holds, all),
    ensures
        eval_and(cs, k, p, all) == all.filter(|id: SeriesId| all_match(cs, k, holds, id)),
    decreases k,
{
    if k == 0 {
        assert(eval_and(cs, k, p, all) =~= all.filter(|id: SeriesId| all_match(cs, k, holds, id)));
    } else if k == 1 {
        assert(eval(cs[0], child_postings(cs, 0, p), all) == naive_filter(cs[0], holds, all));
        assert(eval_and(cs, k, p, all) =~= all.filter(|id: SeriesId| all_match(cs, k, holds, id)));
    } else {
        lemma_and_fold(cs, (k - 1) as nat, p, all, holds);
        assert(eval(cs[k - 1], child_postings(cs, k - 1, p), all) == naive_filter(cs[k - 1], holds, all));
        assert(eval_and(cs, k, p, all) =~= all.filter(|id: SeriesId| all_match(cs, k, holds, id)));
    }
}

proof fn lemma_or_fold(
    cs: Seq<FilterExpr>,
    k: nat,
    p: Seq<Seq<SeriesId>>,
    all: Set<SeriesId>,
    holds: spec_fn(FilterExpr, SeriesId) -> bool,
)
    requires
        k <= cs.len(),
        forall|i: int| 0 <= i < cs.len() ==> #[trigger] eval(cs[i], child_postings(cs, i, p), all)
            == naive_filter(cs[i], holds, all),
    ensures
        eval_or(cs, k, p, all) == all.filter(|id: SeriesId| any_match(cs, k, holds, id)),
    decreases k,
{
    if k == 0 {
        assert(eval_or(cs, k, p, all) =~= all.filter(|id: SeriesId| any_match(cs, k, holds, id)));
    } else {
        lemma_or_fold(cs, (k - 1) as nat, p, all, holds);
        assert(eval(cs[k - 1], child_postings(cs, k - 1, p), all) == naive_filter(cs[k - 1], holds, all));
        assert(eval_or(cs, k, p, all) =~= all.filter(|id: SeriesId| any_match(cs, k, holds, id)));
    }
}

/// The planner agrees with filtering every series one by one: where each
/// atom's posting list holds exactly the series (of `all`) that match the
/// atom, the planned set is the set of series of `all` that match the whole
/// expression.
pub proof fn lemma_planner_is_naive_filter(
    e: FilterExpr,
    p: Seq<Seq<SeriesId>>,
    all: Set<SeriesId>,
    holds: spec_fn(FilterExpr, SeriesId) -> bool,
)
    requires
        postings_exact(e, p, all, holds),
    ensures
        eval(e, p, all) == naive_filter(e, holds, all),
    decreases e, 0nat,
{
    match e {
        FilterExpr::And(cs) => {
            assert forall|i: int| 0 <= i < cs.len() implies #[trigger] eval(cs[i], child_postings(cs, i, p), all)
                == naive_filter(cs[i], holds, all) by {
                lemma_child_exact(cs, i, p, all, holds);
                lemma_planner_is_naive_filter(cs[i], child_postings(cs, i, p), all, holds);
            }
            lemma_and_fold(cs, cs.len(), p, all, holds);
            assert(eval(e, p, all) =~= naive_filter(e, holds, all));
        },
        FilterExpr::Or(cs) => {
            assert forall|i: int| 0 <= i < cs.len() implies #[trigger] eval(cs[i], child_postings(cs, i, p), all)
                == naive_filter(cs[i], holds, all) by {
                lemma_child_exact(cs, i, p, all, holds);
                lemma_planner_is_naive_filter(cs[i], child_postings(cs, i, p), all, holds);
            }
            lemma_or_fold(cs, cs.len(), p, all, holds);
            assert(eval(e, p, all) =~= naive_filter(e, holds, all));
        },
        FilterExpr::Not(c) => {
            lemma_planner_is_naive_filter(*c, p, all, holds);
            assert(eval(e, p, all) =~= naive_filter(e, holds, all));
        },
        _ => {
            assert(atoms(e) =~= seq![e]);
            assert(p.len() == 1);
            assert(p[0].to_set() == all.filter(|id: SeriesId| holds(atoms(e)[0], id)));
            assert(eval(e, p, all) =~= naive_filter(e, holds, all));
        },
    }
}

/// The expression holds a `!`.
pub open spec fn has_not(e: FilterExpr) -> bool
    decreases e, 0nat,
{
    match e {
        FilterExpr::And(cs) => any_has_not(cs, cs.len()),
        FilterExpr::Or(cs) => any_has_not(cs, cs.len()),
        FilterExpr::Not(_) => true,
        _ => false,
    }
}

pub open spec fn any_has_not(cs: Seq<FilterExpr>, k: nat) -> bool
    decreases cs, k,
{
    if k == 0 || k > cs.len() {
        false
    } else {
        any_has_not(cs, (k - 1) as nat) || has_not(cs[k - 1])
    }
}

/// Without a `!`, the set of all series plays no part in the result.
pub proof fn lemma_no_not_ignores_all(e: FilterExpr, p: Seq<Seq<SeriesId>>, a: Set<SeriesId>, b: Set<SeriesId>)
    requires
        !has_not(e),
    ensures
        eval(e, p, a) == eval(e, p, b),
    decreases e, 0nat,
{
    match e {
        FilterExpr::And(cs) => {
            assert forall|i: int| 0 <= i < cs.len() implies #[trigger] eval(cs[i], child_postings(cs, i, p), a)
                == eval(cs[i], child_postings(cs, i, p), b) by {
                lemma_any_has_not(cs, cs.len(), i);
                lemma_no_not_ignores_all(cs[i], child_postings(cs, i, p), a, b);
            }
            lemma_and_same(cs, cs.len(), p, a, b);
        },
        FilterExpr::Or(cs) => {
            assert forall|i: int| 0 <= i < cs.len() implies #[trigger] eval(cs[i], child_postings(cs, i, p), a)
                == eval(cs[i], child_postings(cs, i, p), b) by {
                lemma_any_has_not(cs, cs.len(), i);
                lemma_no_not_ignores_all(cs[i], child_postings(cs, i, p), a, b);
            }
            lemma_or_same(cs, cs.len(), p, a, b);
        },
        _ => {},
    }
}

proof fn lemma_any_has_not_mono(cs: Seq<FilterExpr>, k: nat, m: nat)
    requires
        k <= m <= cs.len(),
        any_has_not(cs, k),
    ensures
        any_has_not(cs, m),
    decreases m - k,
{
    if k < m {
        lemma_any_has_not_mono(cs, k, (m - 1) as nat);
    }
}

proof fn lemma_any_has_not(cs: Seq<FilterExpr>, k: nat, i: int)
    requires
        k <= cs.len(),
        0 <= i < k,
        !any_has_not(cs, k),
    ensures
        !has_not(cs[i]),
    decreases k,
{
    if i < k - 1 {
        lemma_any_has_not(cs, (k - 1) as nat, i);
    }
}

proof fn lemma_and_same(cs: Seq<FilterExpr>, k: nat, p: Seq<Seq<SeriesId>>, a: Set<SeriesId>, b: Set<SeriesId>)
    requires
        k <= cs.len(),
        forall|i: int| 0 <= i < cs.len() ==> #[trigger] eval(cs[i], child_postings(cs, i, p), a)
            == eval(cs[i], child_postings(cs, i, p), b),
    ensures
        eval_and(cs, k, p, a) == eval_and(cs, k, p, b),
    decreases k,
{
    if k > 1 {
        lemma_and_same(cs, (k - 1) as nat, p, a, b);
        assert(eval(cs[k - 1], child_postings(cs, k - 1, p), a) == eval(cs[k - 1], child_postings(cs, k - 1, p), b));
    } else if k == 1 {
        assert(eval(cs[0], child_postings(cs, 0, p), a) == eval(cs[0], child_postings(cs, 0, p), b));
    }
}

proof fn lemma_or_same(cs: Seq<FilterExpr>, k: nat, p: Seq<Seq<SeriesId>>, a: Set<SeriesId>, b: Set<SeriesId>)
    requires
        k <= cs.len(),
        forall|i: int| 0 <= i < cs.len() ==> #[trigger] eval(cs[i], child_postings(cs, i, p), a)
            == eval(cs[i], child_postings(cs, i, p), b),
    ensures
        eval_or(cs, k, p, a) == eval_or(cs, k, p, b),
    decreases k,
{
    if k > 0 {
        lemma_or_same(cs, (k - 1) as nat, p, a, b);
        assert(eval(cs[k - 1], child_postings(cs, k - 1, p), a) == eval(cs[k - 1], child_postings(cs, k - 1, p), b));
    }
}

pub open spec fn lists_view(p: Seq<Vec<SeriesId>>) -> Seq<Seq<SeriesId>> {
    p.map_values(|v: Vec<SeriesId>| v@)
}

proof fn lemma_leaf_count_mono(cs: Seq<FilterExpr>, k: nat, m: nat)
    requires
        k <= m <= cs.len(),
    ensures
        leaf_count_list(cs, k) <= leaf_count_list(cs, m),
    decreases m - k,
{
    if k < m {
        lemma_leaf_count_mono(cs, k, (m - 1) as nat);
    }
}

proof fn lemma_eval_and(cs: Seq<FilterExpr>, k: nat, p: Seq<Seq<SeriesId>>, all: Set<SeriesId>, x: SeriesId)
    requires
        k <= cs.len(),
    ensures
        eval_and(cs, k, p, all).contains(x) <==> (k >= 1 && forall|j: int|
            0 <= j < k ==> #[trigger] eval(cs[j], child_postings(cs, j, p), all).contains(x)),
    decreases k,
{
    if k == 1 {
        if forall|j: int| 0 <= j < k ==> #[trigger] eval(cs[j], child_postings(cs, j, p), all).contains(x) {
            assert(eval(cs[0], child_postings(cs, 0, p), all).contains(x));
        }
    } else if k > 1 {
        lemma_eval_and(cs, (k - 1) as nat, p, all, x);
        if eval_and(cs, k, p, all).contains(x) {
            assert forall|j: int| 0 <= j < k implies #[trigger] eval(cs[j], child_postings(cs, j, p), all).contains(x) by {
                if j < k - 1 {
                }
            }
        }
        if forall|j: int| 0 <= j < k ==> #[trigger] eval(cs[j], child_postings(cs, j, p), all).contains(x) {
            assert(eval(cs[k - 1], child_postings(cs, k - 1, p), all).contains(x));
            assert forall|j: int| 0 <= j < k - 1 implies #[trigger] eval(cs[j], child_postings(cs, j, p), all).contains(x) by {
                assert(0 <= j < k);
            }
        }
    }
}

proof fn lemma_eval_or(cs: Seq<FilterExpr>, k: nat, p: Seq<Seq<SeriesId>>, all: Set<SeriesId>, x: SeriesId)
    requires
        k <= cs.len(),
    ensures
        eval_or(cs, k, p, all).contains(x) <==> exists|j: int|
            0 <= j < k && #[trigger] eval(cs[j], child_postings(cs, j, p), all).contains(x),
    decreases k,
{
    if k > 0 {
        lemma_eval_or(cs, (k - 1) as nat, p, all, x);
        if eval(cs[k - 1], child_postings(cs, k - 1, p), all).contains(x) {
            assert(0 <= k - 1 < k);
        }
        if exists|j: int| 0 <= j < k && #[trigger] eval(cs[j], child_postings(cs, j, p), all).contains(x) {
            let j = choose|j: int| 0 <= j < k && #[trigger] eval(cs[j], child_postings(cs, j, p), all).contains(x);
            if j < k - 1 {
                assert(0 <= j < k - 1);
            }
        }
    }
}

/// The members of `v`, ascending and without repeats.
fn sorted_set(v: &Vec<SeriesId>) -> (r: Vec<SeriesId>)
    ensures
        strictly_sorted(r@),
        forall|x: SeriesId| r@.contains(x) <==> v@.contains(x),
{
    let vs = vec![v.clone()];
    let r = union(vs.as_slice());
    proof {
        assert forall|x: SeriesId| r@.contains(x) <==> v@.contains(x) by {
            if in_any(vs@, x) {
                let j = choose|j: int| 0 <= j < vs@.len() && (#[trigger] vs@[j]@).contains(x);
                assert(j == 0);
            }
            if v@.contains(x) {
                assert((#[trigger] vs@[0]@).contains(x));
            }
        }
    }
    r
}

impl<'a> Node<'a> {
    /// The number of atoms, and so of posting lists that `evaluate` takes.
    pub fn leaf_count(&self) -> (r: usize)
        requires
            leaf_count(self.expr()) <= usize::MAX,
        ensures
            r == leaf_count(self.expr()),
        decreases self,
    {
        match self {
            Node::And(cs) | Node::Or(cs) => {
                let ghost view = children_view(*cs, cs@.len());
                proof {
                    lemma_children_view(*cs, cs@.len());
                    assert(decreases_to!(*self => *cs));
                }
                let mut total: usize = 0;
                let mut k: usize = 0;
                while k < cs.len()
                    invariant
                        decreases_to!(*self => *cs),
                        view == children_view(*cs, cs@.len()),
                        view.len() == cs@.len(),
                        forall|i: int| 0 <= i < cs@.len() ==> view[i] == cs@[i].expr(),
                        leaf_count_list(view, view.len()) <= usize::MAX,
                        k <= cs@.len(),
                        total == leaf_count_list(view, k as nat),
                    decreases cs@.len() - k,
                {
                    proof {
                        lemma_leaf_count_mono(view, (k + 1) as nat, view.len());
                    }
                    proof {
                        assert(decreases_to!(*cs => cs[k as int]));
                        assert(decreases_to!(*self => cs[k as int]));
                    }
                    let c = cs[k].leaf_count();
                    total = total + c;
                    k = k + 1;
                }
                total
            },
            Node::Not(c) => c.leaf_count(),
            _ => 1,
        }
    }

    /// Whether the expression holds a `!`, and so needs the list of all
    /// series.
    pub fn negates(&self) -> (r: bool)
        ensures
            r == has_not(self.expr()),
        decreases self,
    {
        match self {
            Node::And(cs) | Node::Or(cs) => {
                let ghost view = children_view(*cs, cs@.len());
                proof {
                    lemma_children_view(*cs, cs@.len());
                    assert(decreases_to!(*self => *cs));
                }
                assert(has_not(self.expr()) == any_has_not(view, view.len()));
                let mut k: usize = 0;
                while k < cs.len()
                    invariant
                        decreases_to!(*self => *cs),
                        has_not(self.expr()) == any_has_not(view, view.len()),
                        view == children_view(*cs, cs@.len()),
                        view.len() == cs@.len(),
                        forall|i: int| 0 <= i < cs@.len() ==> view[i] == cs@[i].expr(),
                        k <= cs@.len(),
                        !any_has_not(view, k as nat),
                    decreases cs@.len() - k,
                {
                    proof {
                        assert(decreases_to!(*cs => cs[k as int]));
                        assert(decreases_to!(*self => cs[k as int]));
                    }
                    if cs[k].negates() {
                        proof {
                            assert(any_has_not(view, (k + 1) as nat));
                            lemma_any_has_not_mono(view, (k + 1) as nat, view.len());
                            assert(has_not(self.expr()) == any_has_not(view, view.len()));
                        }
                        return true;
                    }
                    k = k + 1;
                }
                assert(has_not(self.expr()) == any_has_not(view, view.len()));
                false
            },
            Node::Not(_) => true,
            _ => false,
        }
    }

    /// The posting lists to fetch for `evaluate`, one per atom, in order.
    pub fn lookups(&self, metric: &str) -> (r: Vec<Lookup>)
        ensures
            lookups_view(r@) == atom_lookups(self.expr(), metric@),
            r@.len() == leaf_count(self.expr()),
        decreases self,
    {
        proof {
            lemma_lookups_len(self.expr(), metric@);
        }
        match self {
            Node::And(cs) | Node::Or(cs) => {
                let ghost view = children_view(*cs, cs@.len());
                proof {
                    lemma_children_view(*cs, cs@.len());
                    assert(decreases_to!(*self => *cs));
                }
                let mut out: Vec<Lookup> = Vec::new();
                let mut k: usize = 0;
                assert(lookups_view(out@) =~= Seq::<(Seq<char>, bool)>::empty());
                while k < cs.len()
                    invariant
                        decreases_to!(*self => *cs),
                        view == children_view(*cs, cs@.len()),
                        view.len() == cs@.len(),
                        forall|i: int| 0 <= i < cs@.len() ==> view[i] == cs@[i].expr(),
                        k <= cs@.len(),
                        lookups_view(out@) == lookups_list(view, k as nat, metric@),
                    decreases cs@.len() - k,
                {
                    proof {
                        assert(decreases_to!(*cs => cs[k as int]));
                        assert(decreases_to!(*self => cs[k as int]));
                    }
                    let mut sub = cs[k].lookups(metric);
                    let ghost before = lookups_view(out@);
                    let ghost add = lookups_view(sub@);
                    out.append(&mut sub);
                    assert(lookups_view(out@) =~= before + add);
                    k = k + 1;
                }
                out
            },
            Node::Not(c) => c.lookups(metric),
            Node::AllStar => {
                let v = vec![Lookup { term: String::from_str(metric), prefix: false }];
                assert(lookups_view(v@) =~= seq![(metric@, false)]);
                v
            },
            Node::Eq(t) => {
                let v = vec![Lookup { term: format_key(metric, t.key, t.value), prefix: false }];
                assert(lookups_view(v@) =~= seq![(tag_term(metric@, t.key@, t.value@), false)]);
                v
            },
            Node::Wildcard(t) => {
                let v = vec![Lookup { term: format_key(metric, t.key, t.value), prefix: true }];
                assert(lookups_view(v@) =~= seq![(tag_term(metric@, t.key@, t.value@), true)]);
                v
            },
        }
    }

    /// Selects the series that match this expression, ascending and without
    /// repeats. `postings` holds one posting list per atom, in the order in
    /// which the atoms stand in the expression; `all` lists every series.
    pub fn evaluate(&self, postings: &[Vec<SeriesId>], all: &[SeriesId]) -> (r: Vec<SeriesId>)
        requires
            postings@.len() == leaf_count(self.expr()),
        ensures
            strictly_sorted(r@),
            forall|x: SeriesId| r@.contains(x) <==> eval(self.expr(), lists_view(postings@), all@.to_set()).contains(x),
    {
        proof {
            assert(lists_view(postings@).subrange(0, postings@.len() as int) =~= lists_view(postings@));
        }
        self.eval_at(postings, 0, all)
    }

    fn eval_at(&self, postings: &[Vec<SeriesId>], off: usize, all: &[SeriesId]) -> (r: Vec<SeriesId>)
        requires
            off + leaf_count(self.expr()) <= postings@.len(),
        ensures
            strictly_sorted(r@),
            forall|x: SeriesId| r@.contains(x) <==> eval(self.expr(), lists_view(postings@).subrange(off as int, off + leaf_count(self.expr())), all@.to_set()).contains(x),
        decreases self,
    {
        let plen = postings.len();
        let ghost pv = lists_view(postings@);
        let ghost mine = pv.subrange(off as int, off + leaf_count(self.expr()));
        match self {
            Node::And(cs) | Node::Or(cs) => {
                let ghost view = children_view(*cs, cs@.len());
                proof {
                    lemma_children_view(*cs, cs@.len());
                    assert(decreases_to!(*self => *cs));
                }
                let mut results: Vec<Vec<SeriesId>> = Vec::new();
                let mut at = off;
                let mut k: usize = 0;
                while k < cs.len()
                    invariant
                        decreases_to!(*self => *cs),
                        plen == postings@.len(),
                        view == children_view(*cs, cs@.len()),
                        view.len() == cs@.len(),
                        forall|i: int| 0 <= i < cs@.len() ==> view[i] == cs@[i].expr(),
                        off + leaf_count_list(view, view.len()) <= postings@.len(),
                        pv == lists_view(postings@),
                        mine == pv.subrange(off as int, off + leaf_count_list(view, view.len())),
                        k <= cs@.len(),
                        results@.len() == k,
                        at == off + leaf_count_list(view, k as nat),
                        forall|j: int, x: SeriesId| 0 <= j < k ==> (#[trigger] results@[j]@.contains(x)
                            <==> eval(view[j], child_postings(view, j, mine), all@.to_set()).contains(x)),
                    decreases cs@.len() - k,
                {
                    proof {
                        lemma_leaf_count_mono(view, (k + 1) as nat, view.len());
                        assert(leaf_count_list(view, (k + 1) as nat) == leaf_count_list(view, k as nat)
                            + leaf_count(view[k as int]));
                        assert(child_postings(view, k as int, mine) =~= pv.subrange(
                            at as int,
                            at + leaf_count(cs@[k as int].expr()),
                        ));
                    }
                    proof {
                        assert(decreases_to!(*cs => cs[k as int]));
                        assert(decreases_to!(*self => cs[k as int]));
                    }
                    let r = cs[k].eval_at(postings, at, all);
                    let c = cs[k].leaf_count();
                    results.push(r);
                    at = at + c;
                    k = k + 1;
                }
                if let Node::And(_) = self {
                    let joint = intersection(results.as_slice());
                    let out = sorted_set(&joint);
                    proof {
                        assert forall|x: SeriesId| out@.contains(x) <==> eval(self.expr(), mine, all@.to_set()).contains(x) by {
                            lemma_eval_and(view, view.len(), mine, all@.to_set(), x);
                            if results@.len() > 0 {
                                let pr = crate::query::postings::in_rest_pred(results@);
                                if joint@.contains(x) {
                                    let i = choose|i: int| 0 <= i < joint@.len() && joint@[i] == x;
                                    assert(joint@ == results@[0]@.filter(pr));
                                    results@[0]@.lemma_filter_pred(pr, i);
                                    results@[0]@.lemma_filter_contains_rev(pr, x);
                                    assert(pr(x));
                                    assert forall|j: int| 0 <= j < view.len() implies #[trigger] eval(view[j], child_postings(view, j, mine), all@.to_set()).contains(x) by {
                                        assert(results@[j]@.contains(x));
                                    }
                                }
                                if eval(self.expr(), mine, all@.to_set()).contains(x) {
                                    assert(results@[0]@.contains(x));
                                    assert forall|j: int| 1 <= j < results@.len() implies (#[trigger] results@[j]@).contains(x) by {
                                        assert(eval(view[j], child_postings(view, j, mine), all@.to_set()).contains(x));
                                    }
                                    assert(pr(x));
                                    let i = choose|i: int| 0 <= i < results@[0]@.len() && results@[0]@[i] == x;
                                    results@[0]@.lemma_filter_contains(pr, i);
                                    assert(joint@ == results@[0]@.filter(pr));
                                }
                            }
                        }
                    }
                    out
                } else {
                    let out = union(results.as_slice());
                    proof {
                        assert forall|x: SeriesId| out@.contains(x) <==> eval(self.expr(), mine, all@.to_set()).contains(x) by {
                            lemma_eval_or(view, view.len(), mine, all@.to_set(), x);
                            if in_any(results@, x) {
                                let j = choose|j: int| 0 <= j < results@.len() && (#[trigger] results@[j]@).contains(x);
                                assert(eval(view[j], child_postings(view, j, mine), all@.to_set()).contains(x));
                            }
                            if eval(self.expr(), mine, all@.to_set()).contains(x) {
                                let j = choose|j: int| 0 <= j < view.len() && #[trigger] eval(view[j], child_postings(view, j, mine), all@.to_set()).contains(x);
                                assert(results@[j]@.contains(x));
                            }
                        }
                    }
                    out
                }
            },
            Node::Not(c) => {
                let inner = c.eval_at(postings, off, all);
                let mut out: Vec<SeriesId> = Vec::new();
                let mut i: usize = 0;
                while i < all.len()
                    invariant
                        i <= all@.len(),
                        strictly_sorted(out@),
                        forall|x: SeriesId| out@.contains(x) <==> (all@.take(i as int).contains(x) && !inner@.contains(x)),
                    decreases all@.len() - i,
                {
                    let x = all[i];
                    let skip = crate::query::postings::contains(&inner, x);
                    if !skip {
                        crate::query::postings::insert_sorted(&mut out, x);
                    }
                    proof {
                        assert forall|y: SeriesId| all@.take(i + 1).contains(y) <==> (all@.take(i as int).contains(y) || y == x) by {
                            if all@.take(i + 1).contains(y) {
                                let k = choose|k: int| 0 <= k < i + 1 && #[trigger] all@.take(i + 1)[k] == y;
                                if k < i {
                                    assert(all@.take(i as int)[k] == y);
                                }
                            }
                            if all@.take(i as int).contains(y) {
                                let k = choose|k: int| 0 <= k < i && #[trigger] all@.take(i as int)[k] == y;
                                assert(all@.take(i + 1)[k] == y);
                            }
                            if y == x {
                                assert(all@.take(i + 1)[i as int] == y);
                            }
                        }
                    }
                    i = i + 1;
                }
                proof {
                    assert(all@.take(all@.len() as int) =~= all@);
                }
                out
            },
            _ => {
                proof {
                    assert(mine.len() == 1);
                    assert(mine[0] == postings@[off as int]@);
                }
                sorted_set(&postings[off])
            },
        }
    }
}

} // verus!
