//! Stored tag sets (`k1:v1;k2:v2;...`) and grouping of series by a tag.
use vstd::prelude::*;
use vstd::string::*;
use crate::series_key::{canonical_tags, join_tags_seq, lemma_tag_order_total_pub, series_key, tag_order, TagView};

verus! {

/// Where the `;`-separated segment that starts at `i` ends.
pub open spec fn seg_end(s: Seq<char>, i: int) -> int
    decreases s.len() - i,
{
    if i < 0 || i >= s.len() || s[i] == ';' {
        i
    } else {
        seg_end(s, i + 1)
    }
}

/// The first `:` in `[i, e)`, or `e`.
pub open spec fn colon_in(s: Seq<char>, i: int, e: int) -> int
    decreases e - i,
{
    if i < 0 || i >= e || i >= s.len() {
        e
    } else if s[i] == ':' {
        i
    } else {
        colon_in(s, i + 1, e)
    }
}

/// The pairs of the segments from `i` on; each segment is `key:value`, split
/// at its first `:`.
pub open spec fn pairs_from(s: Seq<char>, i: int) -> Option<Seq<TagView>>
    decreases s.len() - i,
{
    let e = seg_end(s, i);
    let c = colon_in(s, i, e);
    if i < 0 || i > s.len() || e < i || c >= e {
        None
    } else {
        let pair = (s.subrange(i, c), s.subrange(c + 1, e));
        if e >= s.len() {
            Some(seq![pair])
        } else {
            match pairs_from(s, e + 1) {
                Some(rest) => Some(seq![pair] + rest),
                None => None,
            }
        }
    }
}

/// The tags a stored tag set holds: none for empty text, `None` where a
/// segment has no `:`.
pub open spec fn parse_tag_set(s: Seq<char>) -> Option<Seq<TagView>> {
    if s.len() == 0 {
        Some(Seq::empty())
    } else {
        pairs_from(s, 0)
    }
}

pub open spec fn pairs_view(v: Seq<(String, String)>) -> Seq<TagView> {
    v.map_values(|p: (String, String)| (p.0@, p.1@))
}

/// The value of the first tag named `key`.
pub open spec fn tag_value(tags: Seq<TagView>, key: Seq<char>) -> Option<Seq<char>>
    decreases tags.len(),
{
    if tags.len() == 0 {
        None
    } else if tags[0].0 == key {
        Some(tags[0].1)
    } else {
        tag_value(tags.drop_first(), key)
    }
}

fn seg_end_exec(s: &str, n: usize, i: usize) -> (r: usize)
    requires
        n == s@.len(),
        i <= n,
    ensures
        r == seg_end(s@, i as int),
        i <= r <= n,
{
    let mut j = i;
    while j < n && s.get_char(j) != ';'
        invariant
            n == s@.len(),
            i <= j <= n,
            seg_end(s@, i as int) == seg_end(s@, j as int),
        decreases n - j,
    {
        j = j + 1;
    }
    j
}

fn colon_in_exec(s: &str, n: usize, i: usize, e: usize) -> (r: usize)
    requires
        n == s@.len(),
        i <= e <= n,
    ensures
        r == colon_in(s@, i as int, e as int),
        i <= r <= e,
{
    let mut j = i;
    while j < e && s.get_char(j) != ':'
        invariant
            n == s@.len(),
            i <= j <= e,
            e <= n,
            colon_in(s@, i as int, e as int) == colon_in(s@, j as int, e as int),
        decreases e - j,
    {
        j = j + 1;
    }
    j
}

/// Parses a stored tag set, `k1:v1;k2:v2;...`, each segment split at its
/// first `:`; `None` where a segment has no `:`.
pub fn parse_key_value_pairs(input: &str) -> (r: Option<Vec<(String, String)>>)
    ensures
        match r {
            Some(v) => parse_tag_set(input@) == Some(pairs_view(v@)),
            None => parse_tag_set(input@) is None,
        },
{
    let n = input.unicode_len();
    let mut out: Vec<(String, String)> = Vec::new();
    if n == 0 {
        assert(pairs_view(out@) =~= Seq::<TagView>::empty());
        return Some(out);
    }
    let mut i: usize = 0;
    loop
        invariant
            n == input@.len(),
            n > 0,
            i <= n,
            parse_tag_set(input@) == match pairs_from(input@, i as int) {
                Some(rest) => Some(pairs_view(out@) + rest),
                None => None,
            },
        decreases n - i,
    {
        let e = seg_end_exec(input, n, i);
        let c = colon_in_exec(input, n, i, e);
        if c >= e {
            return None;
        }
        let key = String::from_str(input.substring_char(i, c));
        let value = String::from_str(input.substring_char(c + 1, e));
        let ghost before = pairs_view(out@);
        let ghost pair = (key@, value@);
        out.push((key, value));
        assert(pairs_view(out@) =~= before + seq![pair]);
        if e >= n {
            assert(pairs_view(out@) =~= before + seq![pair]);
            return Some(out);
        }
        proof {
            match pairs_from(input@, e + 1) {
                Some(rest) => {
                    assert(before + (seq![pair] + rest) =~= pairs_view(out@) + rest);
                },
                None => {},
            }
        }
        i = e + 1;
    }
}

fn str_eq(a: &str, b: &str) -> (r: bool)
    ensures
        r == (a@ == b@),
{
    let na = a.unicode_len();
    let nb = b.unicode_len();
    if na != nb {
        return false;
    }
    let mut i: usize = 0;
    while i < na
        invariant
            na == a@.len(),
            nb == b@.len(),
            na == nb,
            i <= na,
            forall|k: int| 0 <= k < i ==> a@[k] == b@[k],
        decreases na - i,
    {
        if a.get_char(i) != b.get_char(i) {
            return false;
        }
        i = i + 1;
    }
    assert(a@ =~= b@);
    true
}

/// The value of the first tag named `key`, if any.
pub fn find_tag<'a>(tags: &'a [(String, String)], key: &str) -> (r: Option<&'a String>)
    ensures
        match r {
            Some(v) => tag_value(pairs_view(tags@), key@) == Some(v@),
            None => tag_value(pairs_view(tags@), key@) is None,
        },
{
    let mut i: usize = 0;
    assert(pairs_view(tags@).skip(0) =~= pairs_view(tags@));
    while i < tags.len()
        invariant
            i <= tags@.len(),
            tag_value(pairs_view(tags@), key@) == tag_value(pairs_view(tags@).skip(i as int), key@),
        decreases tags@.len() - i,
    {
        let ghost rest = pairs_view(tags@).skip(i as int);
        assert(rest[0] == (tags@[i as int].0@, tags@[i as int].1@));
        if str_eq(tags[i].0.as_str(), key) {
            return Some(&tags[i].1);
        }
        assert(rest.drop_first() =~= pairs_view(tags@).skip(i + 1));
        i = i + 1;
    }
    None
}

/// Tags that the stored form keeps apart: keys without `:` and `;`, values
/// without `;`.
pub open spec fn separable(s: Seq<TagView>) -> bool {
    &&& forall|i: int, k: int| 0 <= i < s.len() && 0 <= k < s[i].0.len() ==> (#[trigger] s[i].0[k]) != ':'
        && s[i].0[k] != ';'
    &&& forall|i: int, k: int| 0 <= i < s.len() && 0 <= k < s[i].1.len() ==> (#[trigger] s[i].1[k]) != ';'
}

pub open spec fn pair_text(p: TagView) -> Seq<char> {
    p.0 + seq![':'] + p.1
}

proof fn lemma_join_front(s: Seq<TagView>)
    requires
        s.len() >= 2,
    ensures
        join_tags_seq(s) == pair_text(s[0]) + seq![';'] + join_tags_seq(s.skip(1)),
    decreases s.len(),
{
    if s.len() == 2 {
        assert(s.drop_last().len() == 1);
        assert(s.skip(1).len() == 1);
        assert(s.drop_last()[0] == s[0]);
        assert(s.skip(1)[0] == s[1]);
        assert(join_tags_seq(s.drop_last()) == pair_text(s[0]));
        assert(join_tags_seq(s.skip(1)) == pair_text(s[1]));
        assert(join_tags_seq(s) =~= pair_text(s[0]) + seq![';'] + join_tags_seq(s.skip(1)));
    } else {
        lemma_join_front(s.drop_last());
        assert(s.skip(1).drop_last() =~= s.drop_last().skip(1));
        assert(s.skip(1).last() == s.last());
        assert(s.drop_last()[0] == s[0]);
        assert(join_tags_seq(s.skip(1)) == join_tags_seq(s.skip(1).drop_last()) + seq![';'] + s.last().0
            + seq![':'] + s.last().1);
        assert(join_tags_seq(s) =~= pair_text(s[0]) + seq![';'] + join_tags_seq(s.skip(1)));
    }
}

proof fn lemma_seg_end(x: Seq<char>, i: int, j: int)
    requires
        0 <= i <= j <= x.len(),
        forall|k: int| i <= k < j ==> x[k] != ';',
        j == x.len() || x[j] == ';',
    ensures
        seg_end(x, i) == j,
    decreases j - i,
{
    if i < j {
        lemma_seg_end(x, i + 1, j);
    }
}

proof fn lemma_colon_in(x: Seq<char>, i: int, c: int, e: int)
    requires
        0 <= i <= c < e <= x.len(),
        forall|k: int| i <= k < c ==> x[k] != ':',
        x[c] == ':',
    ensures
        colon_in(x, i, e) == c,
    decreases c - i,
{
    if i < c {
        lemma_colon_in(x, i + 1, c, e);
    }
}

proof fn lemma_pairs_of_join(x: Seq<char>, i: int, s: Seq<TagView>)
    requires
        s.len() >= 1,
        separable(s),
        0 <= i <= x.len(),
        x.subrange(i, x.len() as int) == join_tags_seq(s),
    ensures
        pairs_from(x, i) == Some(s),
    decreases s.len(),
{
    let p = s[0];
    let pt = pair_text(p);
    let kl = p.0.len() as int;
    let e = i + pt.len();
    assert forall|k: int| 0 <= k < p.0.len() implies (#[trigger] p.0[k]) != ':' && p.0[k] != ';' by {
        assert(s[0].0[k] != ':');
    }
    assert forall|k: int| 0 <= k < p.1.len() implies (#[trigger] p.1[k]) != ';' by {
        assert(s[0].1[k] != ';');
    }
    if s.len() == 1 {
        assert(join_tags_seq(s) == pt);
    } else {
        lemma_join_front(s);
    }
    let suffix = x.subrange(i, x.len() as int);
    assert(suffix.subrange(0, pt.len() as int) =~= pt);
    assert(e <= x.len());
    assert forall|k: int| i <= k < e implies x[k] != ';' by {
        assert(x[k] == suffix[k - i]);
        assert(pt[k - i] == suffix[k - i]);
        if k - i < kl {
            assert(pt[k - i] == p.0[k - i]);
        } else if k - i > kl {
            assert(pt[k - i] == p.1[k - i - kl - 1]);
        }
    }
    if s.len() > 1 {
        assert(suffix =~= pt + seq![';'] + join_tags_seq(s.skip(1)));
        assert(suffix[pt.len() as int] == ';');
        assert(x[e] == suffix[pt.len() as int]);
    } else {
        assert(e == x.len());
    }
    lemma_seg_end(x, i, e);
    assert forall|k: int| i <= k < i + kl implies x[k] != ':' by {
        assert(x[k] == suffix[k - i]);
        assert(pt[k - i] == p.0[k - i]);
    }
    assert(x[i + kl] == suffix[kl]);
    assert(pt[kl] == ':');
    lemma_colon_in(x, i, i + kl, e);
    assert(x.subrange(i, i + kl) =~= p.0);
    assert forall|m: int| 0 <= m < p.1.len() implies x.subrange(i + kl + 1, e)[m] == p.1[m] by {
        assert(x[i + kl + 1 + m] == suffix[kl + 1 + m]);
        assert(pt[kl + 1 + m] == p.1[m]);
    }
    assert forall|m: int| 0 <= m < kl implies x.subrange(i, i + kl)[m] == p.0[m] by {
        assert(x[i + m] == suffix[m]);
        assert(pt[m] == p.0[m]);
    }
    assert(x.subrange(i + kl + 1, e) =~= p.1);
    if s.len() > 1 {
        let rest = s.skip(1);
        assert(suffix =~= pt + seq![';'] + join_tags_seq(rest));
        assert(x.subrange(e + 1, x.len() as int) =~= suffix.subrange(pt.len() + 1int, suffix.len() as int));
        assert(suffix.subrange(pt.len() + 1int, suffix.len() as int) =~= join_tags_seq(rest));
        assert forall|a: int, k: int| 0 <= a < rest.len() && 0 <= k < rest[a].0.len() implies (#[trigger] rest[a].0[k]) != ':'
            && rest[a].0[k] != ';' by {
            assert(rest[a] == s[a + 1]);
            assert(s[a + 1].0[k] != ':');
        }
        assert forall|a: int, k: int| 0 <= a < rest.len() && 0 <= k < rest[a].1.len() implies (#[trigger] rest[a].1[k]) != ';' by {
            assert(rest[a] == s[a + 1]);
            assert(s[a + 1].1[k] != ';');
        }
        lemma_pairs_of_join(x, e + 1, rest);
        assert(seq![(p.0, p.1)] + rest =~= s);
    } else {
        assert(seq![(p.0, p.1)] =~= s);
    }
}

/// The stored form of separable tags parses back to the same tags.
pub proof fn lemma_parse_join(s: Seq<TagView>)
    requires
        separable(s),
    ensures
        parse_tag_set(join_tags_seq(s)) == Some(s),
{
    if s.len() == 0 {
        assert(s =~= Seq::<TagView>::empty());
    } else {
        let x = join_tags_seq(s);
        assert(x.subrange(0, x.len() as int) =~= x);
        lemma_pairs_of_join(x, 0, s);
        if s.len() == 1 {
            assert(x.len() >= 1);
        } else {
            lemma_join_front(s);
        }
    }
}

/// Two separable tag sets with the same series key hold the same tags:
/// with `lemma_series_key_order_free`, a series key identifies its tags
/// exactly up to order.
pub proof fn lemma_series_key_identifies_tags(metric: Seq<char>, t1: Seq<TagView>, t2: Seq<TagView>)
    requires
        separable(t1),
        separable(t2),
        series_key(metric, t1) == series_key(metric, t2),
    ensures
        t1.to_multiset() == t2.to_multiset(),
{
    lemma_tag_order_total_pub();
    t1.lemma_sort_by_ensures(tag_order());
    t2.lemma_sort_by_ensures(tag_order());
    let s1 = t1.sort_by(tag_order());
    let s2 = t2.sort_by(tag_order());
    lemma_sorted_separable(t1, s1);
    lemma_sorted_separable(t2, s2);
    let k1 = series_key(metric, t1);
    let k2 = series_key(metric, t2);
    assert(k1.subrange(metric.len() + 1int, k1.len() as int) =~= canonical_tags(t1));
    assert(k2.subrange(metric.len() + 1int, k2.len() as int) =~= canonical_tags(t2));
    lemma_parse_join(s1);
    lemma_parse_join(s2);
}

proof fn lemma_sorted_separable(t: Seq<TagView>, s: Seq<TagView>)
    requires
        separable(t),
        forall|x: TagView| !t.contains(x) ==> !(#[trigger] s.contains(x)),
    ensures
        separable(s),
{
    assert forall|i: int, k: int| 0 <= i < s.len() && 0 <= k < s[i].0.len() implies (#[trigger] s[i].0[k]) != ':'
        && s[i].0[k] != ';' by {
        assert(s.contains(s[i]));
        let j = choose|j: int| 0 <= j < t.len() && t[j] == s[i];
        assert(t[j].0[k] != ':');
    }
    assert forall|i: int, k: int| 0 <= i < s.len() && 0 <= k < s[i].1.len() implies (#[trigger] s[i].1[k]) != ';' by {
        assert(s.contains(s[i]));
        let j = choose|j: int| 0 <= j < t.len() && t[j] == s[i];
        assert(t[j].1[k] != ';');
    }
}

/// Series `i` belongs to the group named `g`: its tag `key` has value `g`.
pub open spec fn in_group(tag_sets: Seq<Vec<(String, String)>>, key: Seq<char>, g: Seq<char>, i: int) -> bool {
    0 <= i < tag_sets.len() && tag_value(pairs_view(tag_sets[i]@), key) == Some(g)
}

/// A grouping of series by the value of one tag: the groups have distinct
/// names, none is empty, each lists its members ascending, and every series
/// that has the tag is in the group of its value.
pub open spec fn is_grouping(
    tag_sets: Seq<Vec<(String, String)>>,
    key: Seq<char>,
    names: Seq<Seq<char>>,
    members: Seq<Seq<usize>>,
) -> bool {
    &&& names.len() == members.len()
    &&& forall|g: int| 0 <= g < members.len() ==> (#[trigger] members[g]).len() > 0
    &&& forall|a: int, b: int| 0 <= a < b < names.len() ==> names[a] != names[b]
    &&& forall|g: int, a: int, b: int| 0 <= g < members.len() && 0 <= a < b < members[g].len()
        ==> #[trigger] members[g][a] < #[trigger] members[g][b]
    &&& forall|g: int, i: usize| 0 <= g < members.len() ==> (#[trigger] members[g].contains(i)
        <==> in_group(tag_sets, key, names[g], i as int))
    &&& forall|i: int| 0 <= i < tag_sets.len() && (#[trigger] tag_value(pairs_view(tag_sets[i]@), key)) is Some
        ==> exists|g: int| 0 <= g < names.len() && names[g] == tag_value(pairs_view(tag_sets[i]@), key)->0
}

/// Some series has value `g` for tag `key`.
pub open spec fn some_series_has(tag_sets: Seq<Vec<(String, String)>>, key: Seq<char>, g: Seq<char>) -> bool {
    exists|i: int| #[trigger] in_group(tag_sets, key, g, i)
}

/// The names of a grouping are exactly the values that the series give
/// the tag: each name is some series' value, and each series' value is a name.
pub proof fn lemma_group_names_are_values(
    tag_sets: Seq<Vec<(String, String)>>,
    key: Seq<char>,
    names: Seq<Seq<char>>,
    members: Seq<Seq<usize>>,
)
    requires
        is_grouping(tag_sets, key, names, members),
    ensures
        forall|g: int| 0 <= g < names.len() ==> #[trigger] some_series_has(tag_sets, key, names[g]),
        forall|i: int| 0 <= i < tag_sets.len() && (#[trigger] tag_value(pairs_view(tag_sets[i]@), key)) is Some
            ==> exists|g: int| 0 <= g < names.len() && names[g] == tag_value(pairs_view(tag_sets[i]@), key)->0,
{
    assert forall|g: int| 0 <= g < names.len() implies #[trigger] some_series_has(tag_sets, key, names[g]) by {
        assert(members[g].len() > 0);
        let m = members[g][0];
        assert(members[g].contains(m));
        assert(in_group(tag_sets, key, names[g], m as int));
    }
}

pub open spec fn group_names(r: Seq<(String, Vec<usize>)>) -> Seq<Seq<char>> {
    r.map_values(|p: (String, Vec<usize>)| p.0@)
}

pub open spec fn group_members(r: Seq<(String, Vec<usize>)>) -> Seq<Seq<usize>> {
    r.map_values(|p: (String, Vec<usize>)| p.1@)
}

/// Groups series by the value of their tag `group_by`; series without that
/// tag are left out.
pub fn group_series(tag_sets: &[Vec<(String, String)>], group_by: &str) -> (r: Vec<(String, Vec<usize>)>)
    ensures
        is_grouping(tag_sets@, group_by@, group_names(r@), group_members(r@)),
{
    let mut r: Vec<(String, Vec<usize>)> = Vec::new();
    let mut i: usize = 0;
    while i < tag_sets.len()
        invariant
            i <= tag_sets@.len(),
            forall|a: int, b: int| 0 <= a < b < r@.len() ==> r@[a].0@ != r@[b].0@,
            forall|g: int| 0 <= g < r@.len() ==> (#[trigger] r@[g].1@).len() > 0,
            forall|g: int, a: int, b: int| 0 <= g < r@.len() && 0 <= a < b < r@[g].1@.len()
                ==> #[trigger] r@[g].1@[a] < #[trigger] r@[g].1@[b],
            forall|g: int, a: int| 0 <= g < r@.len() && 0 <= a < r@[g].1@.len()
                ==> #[trigger] r@[g].1@[a] < i,
            forall|g: int, j: usize| 0 <= g < r@.len() ==> (#[trigger] r@[g].1@.contains(j)
                <==> (j < i && in_group(tag_sets@, group_by@, r@[g].0@, j as int))),
            forall|j: int| 0 <= j < i && (#[trigger] tag_value(pairs_view(tag_sets@[j]@), group_by@)) is Some
                ==> exists|g: int| 0 <= g < r@.len() && r@[g].0@ == tag_value(pairs_view(tag_sets@[j]@), group_by@)->0,
        decreases tag_sets@.len() - i,
    {
        let ghost old_r = r@;
        let ghost tv = tag_value(pairs_view(tag_sets@[i as int]@), group_by@);
        match find_tag(tag_sets[i].as_slice(), group_by) {
            None => {
                assert forall|g: int, j: usize| 0 <= g < r@.len() implies (#[trigger] r@[g].1@.contains(j)
                    <==> (j < i + 1 && in_group(tag_sets@, group_by@, r@[g].0@, j as int))) by {
                    if j == i {
                        assert(!in_group(tag_sets@, group_by@, r@[g].0@, j as int));
                        if r@[g].1@.contains(j) {
                            let a = choose|a: int| 0 <= a < r@[g].1@.len() && r@[g].1@[a] == j;
                            assert(r@[g].1@[a] < i);
                        }
                    }
                }
            },
            Some(value) => {
                let mut g: usize = 0;
                while g < r.len() && !str_eq(r[g].0.as_str(), value.as_str())
                    invariant
                        g <= r@.len(),
                        forall|h: int| 0 <= h < g ==> r@[h].0@ != value@,
                    decreases r@.len() - g,
                {
                    g = g + 1;
                }
                assert(tv == Some(value@));
                if g < r.len() {
                    r[g].1.push(i);
                    proof {
                        assert forall|h: int| 0 <= h < r@.len() && h != g implies r@[h] == old_r[h] by {}
                        assert(r@[g as int].0 == old_r[g as int].0);
                        assert(r@[g as int].1@ == old_r[g as int].1@.push(i));
                        assert forall|h: int, j: usize| 0 <= h < r@.len() implies (#[trigger] r@[h].1@.contains(j)
                            <==> (j < i + 1 && in_group(tag_sets@, group_by@, r@[h].0@, j as int))) by {
                            if h == g {
                                if r@[h].1@.contains(j) && j != i {
                                    let a = choose|a: int| 0 <= a < r@[h].1@.len() && r@[h].1@[a] == j;
                                    assert(a < old_r[h].1@.len());
                                    assert(old_r[h].1@[a] == j);
                                    assert(old_r[h].1@.contains(j));
                                    assert(j < i && in_group(tag_sets@, group_by@, old_r[h].0@, j as int));
                                }
                                if j == i {
                                    assert(in_group(tag_sets@, group_by@, r@[h].0@, j as int));
                                }
                                if j < i && in_group(tag_sets@, group_by@, r@[h].0@, j as int) {
                                    assert(old_r[h].1@.contains(j));
                                    let a = choose|a: int| 0 <= a < old_r[h].1@.len() && old_r[h].1@[a] == j;
                                    assert(r@[h].1@[a] == j);
                                }
                                if j == i {
                                    assert(r@[h].1@[old_r[h].1@.len() as int] == j);
                                }
                            } else {
                                assert(r@[h] == old_r[h]);
                                if h < g {
                                    assert(old_r[h].0@ != old_r[g as int].0@);
                                } else {
                                    assert(old_r[g as int].0@ != old_r[h].0@);
                                }
                                if j == i {
                                    assert(!in_group(tag_sets@, group_by@, r@[h].0@, j as int));
                                    if r@[h].1@.contains(j) {
                                        let a = choose|a: int| 0 <= a < r@[h].1@.len() && r@[h].1@[a] == j;
                                        assert(old_r[h].1@[a] < i);
                                    }
                                } else {
                                    assert(old_r[h].1@.contains(j) <==> (j < i && in_group(tag_sets@, group_by@, old_r[h].0@, j as int)));
                                }
                            }
                        }
                        assert forall|h: int, a: int, b: int| 0 <= h < r@.len() && 0 <= a < b < r@[h].1@.len()
                            implies #[trigger] r@[h].1@[a] < #[trigger] r@[h].1@[b] by {
                            if h == g && b == r@[h].1@.len() - 1 {
                                assert(old_r[h].1@[a] < i);
                            }
                        }
                        assert forall|j: int| 0 <= j < i + 1 && (#[trigger] tag_value(pairs_view(tag_sets@[j]@), group_by@)) is Some
                            implies exists|h: int| 0 <= h < r@.len() && r@[h].0@ == tag_value(pairs_view(tag_sets@[j]@), group_by@)->0 by {
                            if j == i {
                                assert(r@[g as int].0@ == value@);
                            } else {
                                let h = choose|h: int| 0 <= h < old_r.len() && old_r[h].0@ == tag_value(pairs_view(tag_sets@[j]@), group_by@)->0;
                                assert(r@[h].0 == old_r[h].0);
                            }
                        }
                    }
                } else {
                    let ghost nm = value@;
                    r.push((String::from_str(value.as_str()), vec![i]));
                    proof {
                        assert forall|h: int| 0 <= h < old_r.len() implies r@[h] == old_r[h] by {}
                        assert(r@[g as int].0@ == nm);
                        assert(r@[g as int].1@ =~= seq![i]);
                        assert forall|h: int, j: usize| 0 <= h < r@.len() implies (#[trigger] r@[h].1@.contains(j)
                            <==> (j < i + 1 && in_group(tag_sets@, group_by@, r@[h].0@, j as int))) by {
                            if h == g {
                                if j < i && in_group(tag_sets@, group_by@, r@[h].0@, j as int) {
                                    let k = choose|k: int| 0 <= k < old_r.len() && old_r[k].0@ == tag_value(pairs_view(tag_sets@[j as int]@), group_by@)->0;
                                    assert(false);
                                }
                                if r@[h].1@.contains(j) {
                                    assert(r@[h].1@[0] == i);
                                }
                                if j == i {
                                    assert(r@[h].1@[0] == j);
                                }
                            } else {
                                assert(r@[h] == old_r[h]);
                                if j == i {
                                    assert(!in_group(tag_sets@, group_by@, r@[h].0@, j as int));
                                    if r@[h].1@.contains(j) {
                                        let a = choose|a: int| 0 <= a < r@[h].1@.len() && r@[h].1@[a] == j;
                                        assert(old_r[h].1@[a] < i);
                                    }
                                }
                            }
                        }
                        assert forall|j: int| 0 <= j < i + 1 && (#[trigger] tag_value(pairs_view(tag_sets@[j]@), group_by@)) is Some
                            implies exists|h: int| 0 <= h < r@.len() && r@[h].0@ == tag_value(pairs_view(tag_sets@[j]@), group_by@)->0 by {
                            if j == i {
                                assert(r@[g as int].0@ == value@);
                            } else {
                                let h = choose|h: int| 0 <= h < old_r.len() && old_r[h].0@ == tag_value(pairs_view(tag_sets@[j]@), group_by@)->0;
                                assert(r@[h].0 == old_r[h].0);
                            }
                        }
                    }
                }
            },
        }
        i = i + 1;
    }
    proof {
        let names = group_names(r@);
        let members = group_members(r@);
        assert forall|g: int, j: usize| 0 <= g < members.len() implies (#[trigger] members[g].contains(j)
            <==> in_group(tag_sets@, group_by@, names[g], j as int)) by {
            assert(members[g] == r@[g].1@);
            assert(names[g] == r@[g].0@);
        }
        assert forall|i: int| 0 <= i < tag_sets@.len() && (#[trigger] tag_value(pairs_view(tag_sets@[i]@), group_by@)) is Some
            implies exists|g: int| 0 <= g < names.len() && names[g] == tag_value(pairs_view(tag_sets@[i]@), group_by@)->0 by {
            let g = choose|g: int| 0 <= g < r@.len() && r@[g].0@ == tag_value(pairs_view(tag_sets@[i]@), group_by@)->0;
            assert(names[g] == r@[g].0@);
        }
        assert forall|g: int, a: int, b: int| 0 <= g < members.len() && 0 <= a < b < members[g].len()
            implies #[trigger] members[g][a] < #[trigger] members[g][b] by {
            assert(members[g] == r@[g].1@);
        }
        assert forall|g: int| 0 <= g < members.len() implies (#[trigger] members[g]).len() > 0 by {
            assert(members[g] == r@[g].1@);
        }
    }
    r
}

} // verus!
