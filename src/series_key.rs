//! Canonical series keys: `metric#k1:v1;k2:v2;...` with tags sorted.
use vstd::prelude::*;
use vstd::relations::{sorted_by, total_ordering};
use vstd::string::*;
use crate::MetricName;

verus! {

broadcast use vstd::seq_lib::to_multiset_insert;

/// A list of tags: `(key, value)` pairs.
pub type TagSet<'a> = [(&'a str, &'a str)];

/// A tag as characters.
pub type TagView = (Seq<char>, Seq<char>);

/// Lexicographic order of character sequences (by code point, which is
/// also the byte order of their UTF-8 encoding).
pub open spec fn chars_le(a: Seq<char>, b: Seq<char>) -> bool
    decreases a.len(),
{
    if a.len() == 0 {
        true
    } else if b.len() == 0 {
        false
    } else if a[0] != b[0] {
        a[0] < b[0]
    } else {
        chars_le(a.drop_first(), b.drop_first())
    }
}

/// Tags ordered by key, then by value.
pub open spec fn tag_le(p: TagView, q: TagView) -> bool {
    if p.0 != q.0 {
        chars_le(p.0, q.0)
    } else {
        chars_le(p.1, q.1)
    }
}

pub open spec fn tag_order() -> spec_fn(TagView, TagView) -> bool {
    |p: TagView, q: TagView| tag_le(p, q)
}

pub open spec fn tags_view<'a>(t: Seq<(&'a str, &'a str)>) -> Seq<TagView> {
    t.map_values(|p: (&'a str, &'a str)| (p.0@, p.1@))
}

/// `k1:v1;k2:v2;...` in the order given.
pub open spec fn join_tags_seq(s: Seq<TagView>) -> Seq<char>
    decreases s.len(),
{
    if s.len() == 0 {
        Seq::empty()
    } else if s.len() == 1 {
        s[0].0 + seq![':'] + s[0].1
    } else {
        join_tags_seq(s.drop_last()) + seq![';'] + s.last().0 + seq![':'] + s.last().1
    }
}

/// The canonical text of a tag set: its tags sorted, then joined.
pub open spec fn canonical_tags(s: Seq<TagView>) -> Seq<char> {
    join_tags_seq(s.sort_by(tag_order()))
}

/// The series key of a metric and a tag set.
pub open spec fn series_key(metric: Seq<char>, s: Seq<TagView>) -> Seq<char> {
    metric + seq!['#'] + canonical_tags(s)
}

proof fn lemma_chars_le_refl(a: Seq<char>)
    ensures
        chars_le(a, a),
    decreases a.len(),
{
    if a.len() > 0 {
        lemma_chars_le_refl(a.drop_first());
    }
}

proof fn lemma_chars_le_antisym(a: Seq<char>, b: Seq<char>)
    requires
        chars_le(a, b),
        chars_le(b, a),
    ensures
        a == b,
    decreases a.len(),
{
    if a.len() > 0 && b.len() > 0 {
        lemma_chars_le_antisym(a.drop_first(), b.drop_first());
        assert(a =~= seq![a[0]] + a.drop_first());
        assert(b =~= seq![b[0]] + b.drop_first());
    }
}

proof fn lemma_chars_le_trans(a: Seq<char>, b: Seq<char>, c: Seq<char>)
    requires
        chars_le(a, b),
        chars_le(b, c),
    ensures
        chars_le(a, c),
    decreases a.len(),
{
    if a.len() > 0 && b.len() > 0 && c.len() > 0 {
        if a[0] == b[0] && b[0] == c[0] {
            lemma_chars_le_trans(a.drop_first(), b.drop_first(), c.drop_first());
        }
    }
}

proof fn lemma_chars_le_total(a: Seq<char>, b: Seq<char>)
    ensures
        chars_le(a, b) || chars_le(b, a),
    decreases a.len(),
{
    if a.len() > 0 && b.len() > 0 {
        if a[0] == b[0] {
            lemma_chars_le_total(a.drop_first(), b.drop_first());
        }
    }
}

proof fn lemma_tag_order_total()
    ensures
        total_ordering(tag_order()),
{
    let r = tag_order();
    assert forall|x: TagView| #[trigger] r(x, x) by {
        lemma_chars_le_refl(x.1);
    }
    assert forall|x: TagView, y: TagView| #[trigger] r(x, y) && #[trigger] r(y, x) implies x == y by {
        if x.0 != y.0 {
            lemma_chars_le_antisym(x.0, y.0);
        } else {
            lemma_chars_le_antisym(x.1, y.1);
        }
    }
    assert forall|x: TagView, y: TagView, z: TagView| #[trigger] r(x, y) && #[trigger] r(y, z) implies r(x, z) by {
        if x.0 != y.0 && y.0 != z.0 {
            lemma_chars_le_trans(x.0, y.0, z.0);
            if x.0 == z.0 {
                lemma_chars_le_antisym(x.0, y.0);
            }
        } else if x.0 == y.0 && y.0 == z.0 {
            lemma_chars_le_trans(x.1, y.1, z.1);
        }
    }
    assert forall|x: TagView, y: TagView| #[trigger] r(x, y) || #[trigger] r(y, x) by {
        lemma_chars_le_total(x.0, y.0);
        lemma_chars_le_total(x.1, y.1);
    }
}

fn str_le(a: &str, b: &str) -> (r: bool)
    ensures
        r == chars_le(a@, b@),
{
    let na = a.unicode_len();
    let nb = b.unicode_len();
    let mut i: usize = 0;
    assert(a@.skip(0) =~= a@);
    assert(b@.skip(0) =~= b@);
    while i < na && i < nb && a.get_char(i) == b.get_char(i)
        invariant
            na == a@.len(),
            nb == b@.len(),
            i <= na,
            i <= nb,
            chars_le(a@, b@) == chars_le(a@.skip(i as int), b@.skip(i as int)),
        decreases na - i,
    {
        assert(a@.skip(i as int).drop_first() =~= a@.skip(i + 1));
        assert(b@.skip(i as int).drop_first() =~= b@.skip(i + 1));
        i = i + 1;
    }
    if i == na {
        true
    } else if i == nb {
        false
    } else {
        let ca = a.get_char(i);
        let cb = b.get_char(i);
        assert(a@.skip(i as int)[0] == ca);
        assert(b@.skip(i as int)[0] == cb);
        ca < cb
    }
}

fn tag_le_exec(p: (&str, &str), q: (&str, &str)) -> (r: bool)
    ensures
        r == tag_le((p.0@, p.1@), (q.0@, q.1@)),
{
    let k1 = str_le(p.0, q.0);
    let k2 = str_le(q.0, p.0);
    if k1 && k2 {
        proof {
            lemma_chars_le_antisym(p.0@, q.0@);
        }
        str_le(p.1, q.1)
    } else {
        proof {
            if p.0@ == q.0@ {
                lemma_chars_le_refl(p.0@);
            }
        }
        k1
    }
}

/// The tags sorted by key, then value.
fn sort_tags<'a>(tags: &TagSet<'a>) -> (r: Vec<(&'a str, &'a str)>)
    ensures
        tags_view(r@) == tags_view(tags@).sort_by(tag_order()),
{
    proof {
        lemma_tag_order_total();
    }
    let ghost ord = tag_order();
    let mut r: Vec<(&'a str, &'a str)> = Vec::new();
    let mut i: usize = 0;
    assert(tags_view(r@) =~= Seq::<TagView>::empty());
    assert(tags_view(tags@.take(0)) =~= Seq::<TagView>::empty());
    while i < tags.len()
        invariant
            ord == tag_order(),
            total_ordering(ord),
            i <= tags@.len(),
            sorted_by(tags_view(r@), ord),
            tags_view(r@).to_multiset() == tags_view(tags@.take(i as int)).to_multiset(),
        decreases tags@.len() - i,
    {
        let x = tags[i];
        let ghost xv = (x.0@, x.1@);
        let mut p: usize = 0;
        while p < r.len() && tag_le_exec(r[p], x)
            invariant
                ord == tag_order(),
                xv == (x.0@, x.1@),
                p <= r@.len(),
                forall|k: int| 0 <= k < p ==> ord(#[trigger] tags_view(r@)[k], xv),
            decreases r@.len() - p,
        {
            assert(tags_view(r@)[p as int] == (r@[p as int].0@, r@[p as int].1@));
            assert(tag_le(tags_view(r@)[p as int], xv));
            assert(ord(tags_view(r@)[p as int], xv));
            p = p + 1;
        }
        let ghost before = tags_view(r@);
        r.insert(p, x);
        proof {
            assert(tags_view(r@) =~= before.insert(p as int, xv));
            if p < before.len() {
                assert(before[p as int] == (r@[p as int + 1].0@, r@[p as int + 1].1@));
                assert(!ord(before[p as int], xv));
                assert(ord(xv, before[p as int]));
            }
            assert forall|k: int| p <= k < before.len() implies ord(xv, #[trigger] before[k]) by {
                if p < k {
                    assert(ord(before[p as int], before[k]));
                }
            }
            assert(sorted_by(tags_view(r@), ord));
            assert(tags_view(tags@.take(i + 1)) =~= tags_view(tags@.take(i as int)).push(xv));
            assert(tags_view(tags@.take(i as int)).push(xv) =~= tags_view(tags@.take(i as int)).insert(
                i as int,
                xv,
            ));
        }
        i = i + 1;
    }
    proof {
        assert(tags@.take(tags@.len() as int) =~= tags@);
        tags_view(tags@).lemma_sort_by_ensures(ord);
        vstd::seq_lib::lemma_sorted_unique(tags_view(r@), tags_view(tags@).sort_by(ord), ord);
    }
    r
}

pub proof fn lemma_tag_order_total_pub()
    ensures
        total_ordering(tag_order()),
{
    lemma_tag_order_total();
}

/// Two tag sets that hold the same tags, in whatever order, give the same
/// series key.
pub proof fn lemma_series_key_order_free(metric: Seq<char>, t1: Seq<TagView>, t2: Seq<TagView>)
    requires
        t1.to_multiset() == t2.to_multiset(),
    ensures
        series_key(metric, t1) == series_key(metric, t2),
{
    lemma_tag_order_total();
    t1.lemma_sort_by_ensures(tag_order());
    t2.lemma_sort_by_ensures(tag_order());
    vstd::seq_lib::lemma_sorted_unique(t1.sort_by(tag_order()), t2.sort_by(tag_order()), tag_order());
}

/// Relies on `String::with_capacity`: an empty string with room reserved;
/// it panics above `isize::MAX` bytes.
#[verifier::external_body]
fn string_with_capacity(n: usize) -> (r: String)
    requires
        n <= isize::MAX,
    ensures
        r@.len() == 0,
{
    String::with_capacity(n)
}

/// Builds series keys.
pub struct SeriesKey;

impl SeriesKey {
    /// An empty string with room for the joined tags and `extra_len` more bytes.
    pub fn allocate_string_for_tags(tags: &TagSet, extra_len: usize) -> (r: String)
        ensures
            r@.len() == 0,
    {
        let mut total: usize = 0;
        let mut i: usize = 0;
        while i < tags.len()
            invariant
                i <= tags@.len(),
            decreases tags@.len() - i,
        {
            let (key, value) = tags[i];
            total = total.saturating_add(key.len()).saturating_add(value.len()).saturating_add(1);
            if i > 0 {
                total = total.saturating_add(1);
            }
            i = i + 1;
        }
        total = total.saturating_add(extra_len);
        if total > isize::MAX as usize {
            total = isize::MAX as usize;
        }
        string_with_capacity(total)
    }

    /// Appends the tags, sorted by key and then value, as `k1:v1;k2:v2;...`.
    pub fn join_tags(buf: &mut String, tags: &TagSet)
        ensures
            final(buf)@ == old(buf)@ + canonical_tags(tags_view(tags@)),
    {
        let sorted = sort_tags(tags);
        let ghost sv = tags_view(sorted@);
        let ghost start = buf@;
        let mut idx: usize = 0;
        proof {
            assert(sv.take(0) =~= Seq::<TagView>::empty());
            assert(buf@ =~= start + join_tags_seq(sv.take(0)));
        }
        while idx < sorted.len()
            invariant
                sv == tags_view(sorted@),
                idx <= sorted@.len(),
                buf@ == start + join_tags_seq(sv.take(idx as int)),
            decreases sorted@.len() - idx,
        {
            let (key, value) = sorted[idx];
            proof {
                reveal_strlit(";");
                reveal_strlit(":");
            }
            if idx > 0 {
                buf.append(";");
            }
            buf.append(key);
            buf.append(":");
            buf.append(value);
            proof {
                let t = sv.take(idx + 1);
                assert(t.drop_last() =~= sv.take(idx as int));
                assert(t.last() == (key@, value@));
                assert(buf@ =~= start + join_tags_seq(t));
            }
            idx = idx + 1;
        }
        proof {
            assert(sv.take(sorted@.len() as int) =~= sv);
        }
    }

    /// The series key `metric#k1:v1;k2:v2;...`, tags sorted by key, then value.
    pub fn format(metric: MetricName, tags: &TagSet) -> (r: String)
        ensures
            r@ == series_key(metric.view(), tags_view(tags@)),
    {
        let name = metric.as_str();
        let mut s = Self::allocate_string_for_tags(tags, name.len());
        s.append(name);
        proof {
            reveal_strlit("#");
        }
        s.append("#");
        Self::join_tags(&mut s, tags);
        assert(s@ =~= series_key(metric.view(), tags_view(tags@)));
        s
    }
}

} // verus!
