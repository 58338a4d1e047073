//! Sorted posting lists of series IDs and their set algebra.
use vstd::prelude::*;
use crate::SeriesId;

verus! {

/// Ascending without repeats.
pub open spec fn strictly_sorted(s: Seq<SeriesId>) -> bool {
    forall|i: int, j: int| 0 <= i < j < s.len() ==> s[i] < s[j]
}

/// `x` is in each list after the first.
pub open spec fn in_rest(vs: Seq<Vec<SeriesId>>, x: SeriesId) -> bool {
    forall|j: int| 1 <= j < vs.len() ==> (#[trigger] vs[j]@).contains(x)
}

/// `x` is in some list.
pub open spec fn in_any(vs: Seq<Vec<SeriesId>>, x: SeriesId) -> bool {
    exists|j: int| 0 <= j < vs.len() && (#[trigger] vs[j]@).contains(x)
}

pub open spec fn in_rest_pred(vs: Seq<Vec<SeriesId>>) -> spec_fn(SeriesId) -> bool {
    |x: SeriesId| in_rest(vs, x)
}

/// The members of the first list, in its order, that every other list holds;
/// empty where there is no list.
pub open spec fn intersection_of(vs: Seq<Vec<SeriesId>>) -> Seq<SeriesId> {
    if vs.len() == 0 {
        Seq::empty()
    } else {
        vs[0]@.filter(in_rest_pred(vs))
    }
}

pub(crate) fn contains(v: &Vec<SeriesId>, x: SeriesId) -> (r: bool)
    ensures
        r == v@.contains(x),
{
    let mut i: usize = 0;
    while i < v.len()
        invariant
            i <= v@.len(),
            forall|k: int| 0 <= k < i ==> v@[k] != x,
        decreases v@.len() - i,
    {
        if v[i] == x {
            return true;
        }
        i = i + 1;
    }
    false
}

/// Intersects posting lists: the members of the first list, in order, that
/// all the others hold.
pub fn intersection(vecs: &[Vec<SeriesId>]) -> (r: Vec<SeriesId>)
    ensures
        r@ == intersection_of(vecs@),
{
    if vecs.len() == 0 {
        return Vec::new();
    }
    let first = &vecs[0];
    let ghost pred = in_rest_pred(vecs@);
    let mut result: Vec<SeriesId> = Vec::new();
    let mut i: usize = 0;
    while i < first.len()
        invariant
            vecs@.len() >= 1,
            pred == in_rest_pred(vecs@),
            first@ == vecs@[0]@,
            i <= first@.len(),
            result@ == first@.take(i as int).filter(pred),
        decreases first@.len() - i,
    {
        let x = first[i];
        let mut keep = true;
        let mut j: usize = 1;
        while j < vecs.len()
            invariant
                vecs@.len() >= 1,
                1 <= j <= vecs@.len(),
                keep == (forall|m: int| 1 <= m < j ==> (#[trigger] vecs@[m]@).contains(x)),
            decreases vecs@.len() - j,
        {
            if !contains(&vecs[j], x) {
                keep = false;
            }
            j = j + 1;
        }
        assert(first@.take(i + 1).drop_last() =~= first@.take(i as int));
        assert(first@.take(i + 1).last() == x);
        assert(keep == pred(x));
        if keep {
            result.push(x);
        }
        proof {
            reveal(Seq::filter);
            assert(first@.take(i + 1).len() > 0);
        }
        assert(result@ == first@.take(i + 1).filter(pred));
        i = i + 1;
    }
    assert(first@.take(first@.len() as int) =~= first@);
    result
}

/// Inserts `x` into an ascending list unless it is there.
pub(crate) fn insert_sorted(v: &mut Vec<SeriesId>, x: SeriesId)
    requires
        strictly_sorted(old(v)@),
    ensures
        strictly_sorted(final(v)@),
        forall|y: SeriesId| final(v)@.contains(y) <==> (old(v)@.contains(y) || y == x),
{
    let mut p: usize = 0;
    while p < v.len() && v[p] < x
        invariant
            p <= v@.len(),
            forall|k: int| 0 <= k < p ==> v@[k] < x,
        decreases v@.len() - p,
    {
        p = p + 1;
    }
    if p < v.len() && v[p] == x {
        assert(v@[p as int] == x);
        assert(forall|y: SeriesId| y == x ==> v@.contains(y));
    } else {
        let ghost ov = v@;
        v.insert(p, x);
        assert(forall|k: int| 0 <= k < p ==> v@[k] == ov[k]);
        assert(forall|k: int| p < k <= ov.len() ==> v@[k] == ov[k - 1]);
        assert(v@[p as int] == x);
        assert forall|y: SeriesId| v@.contains(y) <==> (ov.contains(y) || y == x) by {
            if v@.contains(y) {
                let k = choose|k: int| 0 <= k < v@.len() && v@[k] == y;
                if k < p {
                    assert(ov[k] == y);
                } else if k > p {
                    assert(ov[k - 1] == y);
                }
            }
            if ov.contains(y) {
                let k = choose|k: int| 0 <= k < ov.len() && ov[k] == y;
                if k < p {
                    assert(v@[k] == y);
                } else {
                    assert(v@[k + 1] == y);
                }
            }
        }
    }
}

/// Unites posting lists into one ascending list without repeats.
pub fn union(vecs: &[Vec<SeriesId>]) -> (r: Vec<SeriesId>)
    ensures
        strictly_sorted(r@),
        forall|x: SeriesId| r@.contains(x) <==> in_any(vecs@, x),
{
    let mut result: Vec<SeriesId> = Vec::new();
    let mut j: usize = 0;
    while j < vecs.len()
        invariant
            j <= vecs@.len(),
            strictly_sorted(result@),
            forall|x: SeriesId| result@.contains(x) <==> in_any(vecs@.take(j as int), x),
        decreases vecs@.len() - j,
    {
        let v = &vecs[j];
        let mut i: usize = 0;
        while i < v.len()
            invariant
                j < vecs@.len(),
                v@ == vecs@[j as int]@,
                i <= v@.len(),
                strictly_sorted(result@),
                forall|x: SeriesId| result@.contains(x) <==> (in_any(vecs@.take(j as int), x)
                    || v@.take(i as int).contains(x)),
            decreases v@.len() - i,
        {
            let ghost before = result@;
            insert_sorted(&mut result, v[i]);
            proof {
                assert(forall|y: SeriesId| result@.contains(y) <==> (before.contains(y) || y == v@[i as int]));
                assert forall|x: SeriesId| v@.take(i + 1).contains(x) <==> (v@.take(
                    i as int,
                ).contains(x) || x == v@[i as int]) by {
                    if v@.take(i + 1).contains(x) {
                        let k = choose|k: int| 0 <= k < i + 1 && #[trigger] v@.take(i + 1)[k] == x;
                        if k < i {
                            assert(v@.take(i as int)[k] == x);
                        }
                    }
                    if v@.take(i as int).contains(x) {
                        let k = choose|k: int| 0 <= k < i && #[trigger] v@.take(i as int)[k] == x;
                        assert(v@.take(i + 1)[k] == x);
                    }
                    if x == v@[i as int] {
                        assert(v@.take(i + 1)[i as int] == x);
                    }
                }
                assert forall|y: SeriesId| result@.contains(y) <==> (in_any(vecs@.take(j as int), y)
                    || v@.take(i + 1).contains(y)) by {
                    assert(v@.take(i + 1).contains(y) <==> (v@.take(i as int).contains(y) || y == v@[i as int]));
                }
            }
            i = i + 1;
        }
        proof {
            assert(v@.take(v@.len() as int) =~= v@);
            assert forall|x: SeriesId| in_any(vecs@.take(j + 1), x) <==> (in_any(
                vecs@.take(j as int),
                x,
            ) || v@.contains(x)) by {
                if in_any(vecs@.take(j + 1), x) {
                    let m = choose|m: int| 0 <= m < j + 1 && (#[trigger] vecs@.take(j + 1)[m]@).contains(x);
                    if m < j {
                        assert(vecs@.take(j as int)[m] == vecs@[m]);
                    }
                }
                if in_any(vecs@.take(j as int), x) {
                    let m = choose|m: int| 0 <= m < j && (#[trigger] vecs@.take(j as int)[m]@).contains(x);
                    assert(vecs@.take(j + 1)[m] == vecs@[m]);
                }
                if v@.contains(x) {
                    assert(vecs@.take(j + 1)[j as int] == vecs@[j as int]);
                }
            }
        }
        j = j + 1;
    }
    assert(vecs@.take(vecs@.len() as int) =~= vecs@);
    result
}

} // verus!
