//! The k-way merge of newest-first streams.
use vstd::prelude::*;
use crate::Timestamp;

verus! {

/// `heads[i]` is the newest pending timestamp of input `i`, if any. The
/// chosen input is the one with the newest head, the lowest index among equals.
pub open spec fn is_next(heads: Seq<Option<Timestamp>>, i: int) -> bool {
    &&& 0 <= i < heads.len()
    &&& heads[i] is Some
    &&& forall|j: int| 0 <= j < heads.len() && #[trigger] heads[j] is Some ==> {
        ||| heads[j]->0 < heads[i]->0
        ||| (heads[j]->0 == heads[i]->0 && i <= j)
    }
}

/// Chooses the input whose head the merger emits next; `None` when every
/// input is exhausted.
pub fn pick_next(heads: &[Option<Timestamp>]) -> (r: Option<usize>)
    ensures
        match r {
            Some(i) => is_next(heads@, i as int),
            None => forall|j: int| 0 <= j < heads@.len() ==> heads@[j] is None,
        },
{
    let mut best: Option<usize> = None;
    let mut i: usize = 0;
    while i < heads.len()
        invariant
            i <= heads@.len(),
            match best {
                Some(b) => b < i && is_next(heads@.take(i as int), b as int),
                None => forall|j: int| 0 <= j < i ==> heads@[j] is None,
            },
        decreases heads@.len() - i,
    {
        let ghost prev = heads@.take(i as int);
        let ghost cur = heads@.take(i + 1);
        assert(forall|j: int| 0 <= j < i ==> cur[j] == prev[j]);
        match heads[i] {
            Some(t) => match best {
                Some(b) => {
                    let tb = heads[b].unwrap();
                    assert(prev[b as int] == heads@[b as int]);
                    if t > tb {
                        best = Some(i);
                    }
                },
                None => {
                    best = Some(i);
                },
            },
            None => {},
        }
        i = i + 1;
    }
    assert(heads@.take(heads@.len() as int) =~= heads@);
    best
}

/// Samples `(ts, input, position)` ordered as the merger emits them: newer
/// first, then lower input index, then earlier position.
pub open spec fn emitted_before(a: (Timestamp, int, int), b: (Timestamp, int, int)) -> bool {
    ||| a.0 > b.0
    ||| (a.0 == b.0 && a.1 < b.1)
    ||| (a.0 == b.0 && a.1 == b.1 && a.2 < b.2)
}

/// Each input is newest-first.
pub open spec fn inputs_descending(inputs: Seq<Vec<Timestamp>>) -> bool {
    forall|i: int, p: int, q: int|
        0 <= i < inputs.len() && 0 <= p <= q < inputs[i]@.len() ==> #[trigger] inputs[i]@[q] <= #[trigger] inputs[i]@[p]
}

pub open spec fn key_of(inputs: Seq<Vec<Timestamp>>, e: (usize, usize)) -> (Timestamp, int, int) {
    (inputs[e.0 as int]@[e.1 as int], e.0 as int, e.1 as int)
}

pub open spec fn is_position(inputs: Seq<Vec<Timestamp>>, e: (usize, usize)) -> bool {
    e.0 < inputs.len() && e.1 < inputs[e.0 as int]@.len()
}

pub open spec fn pending(inputs: Seq<Vec<Timestamp>>, pos: Seq<usize>) -> nat
    decreases inputs.len(),
{
    if inputs.len() == 0 || pos.len() != inputs.len() {
        0
    } else {
        pending(inputs.drop_last(), pos.drop_last()) + (inputs.last()@.len() - pos.last()) as nat
    }
}

proof fn lemma_pending_step(inputs: Seq<Vec<Timestamp>>, pos: Seq<usize>, np: Seq<usize>, i: int)
    requires
        np.len() == pos.len(),
        np[i] == pos[i] + 1,
        forall|k: int| 0 <= k < pos.len() && k != i ==> np[k] == pos[k],
        pos.len() == inputs.len(),
        0 <= i < inputs.len(),
        pos[i] < inputs[i]@.len(),
        forall|k: int| 0 <= k < inputs.len() ==> pos[k] <= inputs[k]@.len(),
    ensures
        pending(inputs, np) + 1 == pending(inputs, pos),
    decreases inputs.len(),
{
    if i < inputs.len() - 1 {
        lemma_pending_step(inputs.drop_last(), pos.drop_last(), np.drop_last(), i);
    } else {
        assert(np.drop_last() =~= pos.drop_last());
    }
}

/// The order in which the merger emits the samples of fully known inputs,
/// as `(input, position)` pairs: every position exactly once, newest first,
/// ties by input index.
pub fn merge_order(inputs: &Vec<Vec<Timestamp>>) -> (r: Vec<(usize, usize)>)
    requires
        inputs_descending(inputs@),
    ensures
        forall|a: int, b: int| 0 <= a < b < r@.len() ==> emitted_before(
            key_of(inputs@, #[trigger] r@[a]),
            key_of(inputs@, #[trigger] r@[b]),
        ),
        forall|e: (usize, usize)| r@.contains(e) <==> is_position(inputs@, e),
{
    let n = inputs.len();
    let mut pos: Vec<usize> = Vec::new();
    let mut heads: Vec<Option<Timestamp>> = Vec::new();
    let mut k: usize = 0;
    while k < n
        invariant
            n == inputs@.len(),
            k <= n,
            pos@.len() == k,
            heads@.len() == k,
            forall|m: int| 0 <= m < k ==> pos@[m] == 0,
            forall|m: int| 0 <= m < k ==> #[trigger] heads@[m] == if inputs@[m]@.len() > 0 {
                Some(inputs@[m]@[0])
            } else {
                None
            },
        decreases n - k,
    {
        pos.push(0);
        if inputs[k].len() > 0 {
            heads.push(Some(inputs[k][0]));
        } else {
            heads.push(None);
        }
        k = k + 1;
    }
    let mut out: Vec<(usize, usize)> = Vec::new();
    loop
        invariant
            n == inputs@.len(),
            inputs_descending(inputs@),
            pos@.len() == n,
            heads@.len() == n,
            forall|m: int| 0 <= m < n ==> pos@[m] <= inputs@[m]@.len(),
            forall|m: int| 0 <= m < n ==> #[trigger] heads@[m] == if pos@[m] < inputs@[m]@.len() {
                Some(inputs@[m]@[pos@[m] as int])
            } else {
                None
            },
            forall|e: (usize, usize)| out@.contains(e) <==> (is_position(inputs@, e) && e.1 < pos@[e.0 as int]),
            forall|a: int, b: int| 0 <= a < b < out@.len() ==> emitted_before(
                key_of(inputs@, #[trigger] out@[a]),
                key_of(inputs@, #[trigger] out@[b]),
            ),
            out@.len() > 0 ==> forall|e: (usize, usize)| is_position(inputs@, e) && e.1 >= pos@[e.0 as int] ==> emitted_before(
                key_of(inputs@, out@.last()),
                #[trigger] key_of(inputs@, e),
            ),
            forall|e: (usize, usize)| #[trigger] out@.contains(e) ==> is_position(inputs@, e),
        ensures
            forall|e: (usize, usize)| is_position(inputs@, e) ==> #[trigger] out@.contains(e),
            forall|a: int, b: int| 0 <= a < b < out@.len() ==> emitted_before(
                key_of(inputs@, #[trigger] out@[a]),
                key_of(inputs@, #[trigger] out@[b]),
            ),
            forall|e: (usize, usize)| #[trigger] out@.contains(e) ==> is_position(inputs@, e),
        decreases pending(inputs@, pos@),
    {
        let ghost old_pos = pos@;
        let ghost old_out = out@;
        match pick_next(heads.as_slice()) {
            None => {
                assert forall|e: (usize, usize)| is_position(inputs@, e) implies out@.contains(e) by {
                    assert(heads@[e.0 as int] is None);
                }
                break;
            },
            Some(i) => {
                let p = pos[i];
                let len_i = inputs[i].len();
                let e = (i, p);
                let t = inputs[i][p];
                assert(heads@[i as int] == Some(t));
                proof {
                    // Every pending sample comes after the chosen one.
                    assert forall|f: (usize, usize)| is_position(inputs@, f) && f.1 >= pos@[f.0 as int]
                        && f != e implies emitted_before(key_of(inputs@, e), #[trigger] key_of(inputs@, f)) by {
                        let j = f.0 as int;
                        assert(heads@[j] is Some);
                        assert(inputs@[j]@[f.1 as int] <= inputs@[j]@[pos@[j] as int]);
                    }
                }
                out.push(e);
                pos.set(i, p + 1);
                proof {
                    lemma_pending_step(inputs@, old_pos, pos@, i as int);
                }
                if p + 1 < inputs[i].len() {
                    heads.set(i, Some(inputs[i][p + 1]));
                } else {
                    heads.set(i, None);
                }
                proof {
                    assert(out@.last() == e);
                    assert forall|f: (usize, usize)| out@.contains(f) <==> (is_position(inputs@, f) && f.1 < pos@[f.0 as int]) by {
                        if out@.contains(f) {
                            let a = choose|a: int| 0 <= a < out@.len() && out@[a] == f;
                            if a < old_out.len() {
                                assert(old_out.contains(f));
                            }
                        }
                        if is_position(inputs@, f) && f.1 < pos@[f.0 as int] && f != e {
                            assert(old_out.contains(f));
                            let a = choose|a: int| 0 <= a < old_out.len() && old_out[a] == f;
                            assert(out@[a] == f);
                        }
                        if f == e {
                            assert(out@[old_out.len() as int] == e);
                        }
                    }
                    assert forall|a: int, b: int| 0 <= a < b < out@.len() implies emitted_before(
                        key_of(inputs@, #[trigger] out@[a]),
                        key_of(inputs@, #[trigger] out@[b]),
                    ) by {
                        if b == old_out.len() {
                            if a < old_out.len() - 1 {
                                assert(emitted_before(key_of(inputs@, old_out[a]), key_of(inputs@, old_out.last())));
                            }
                            assert(old_out.len() > 0 ==> emitted_before(key_of(inputs@, old_out.last()), key_of(inputs@, e)));
                        } else {
                            assert(out@[a] == old_out[a] && out@[b] == old_out[b]);
                        }
                    }
                }
            },
        }
    }
    out
}

} // verus!
