//! Series-ID allocation from a stored counter.
use vstd::prelude::*;
use crate::encoding::{lemma_u64_round_trip_pub, u64_be, u64_from_be, u64_of_be, u64_to_be};
use crate::SeriesId;

verus! {

/// What one allocation does to the stored counter `c` (absent before the
/// first series): the ID it hands out and the counter's new bytes. `None`
/// where the stored bytes are no counter or the IDs are used up.
pub open spec fn next_allocation(c: Option<Seq<u8>>) -> Option<(SeriesId, Seq<u8>)> {
    match c {
        None => Some((0, u64_be(1))),
        Some(b) => if b.len() == 8 && u64_of_be(b) < u64::MAX {
            Some((u64_of_be(b), u64_be((u64_of_be(b) + 1) as u64)))
        } else {
            None
        },
    }
}

/// The IDs handed out by `k` allocations from a fresh counter, and the
/// counter after them.
pub open spec fn allocations(k: nat) -> Option<(Seq<SeriesId>, Option<Seq<u8>>)>
    decreases k,
{
    if k == 0 {
        Some((Seq::empty(), None))
    } else {
        match allocations((k - 1) as nat) {
            Some((ids, c)) => match next_allocation(c) {
                Some((id, nc)) => Some((ids.push(id), Some(nc))),
                None => None,
            },
            None => None,
        }
    }
}

pub open spec fn stored(c: Option<&[u8]>) -> Option<Seq<u8>> {
    match c {
        Some(b) => Some(b@),
        None => None,
    }
}

/// Allocates the next series ID from the stored counter.
pub fn allocate_series_id(counter: Option<&[u8]>) -> (r: Option<(SeriesId, Vec<u8>)>)
    ensures
        match r {
            Some((id, nb)) => next_allocation(stored(counter)) == Some((id, nb@)),
            None => next_allocation(stored(counter)) is None,
        },
{
    match counter {
        None => {
            let mut nb: Vec<u8> = Vec::new();
            u64_to_be(1, &mut nb);
            assert(nb@ =~= u64_be(1));
            Some((0, nb))
        },
        Some(b) => {
            if b.len() != 8 {
                return None;
            }
            let id = u64_from_be(b, 0);
            assert(b@.subrange(0, 8) =~= b@);
            if id == u64::MAX {
                return None;
            }
            let mut nb: Vec<u8> = Vec::new();
            u64_to_be(id + 1, &mut nb);
            assert(nb@ =~= u64_be((id + 1) as u64));
            Some((id, nb))
        },
    }
}

/// Allocation from a fresh counter hands out 0, 1, 2, ... without gaps,
/// and the counter then holds the number of IDs handed out.
pub proof fn lemma_allocation_gapless(k: nat)
    requires
        k <= u64::MAX,
    ensures
        allocations(k) == Some((
            Seq::new(k, |i: int| i as SeriesId),
            if k == 0 {
                None::<Seq<u8>>
            } else {
                Some(u64_be(k as u64))
            },
        )),
    decreases k,
{
    if k > 0 {
        lemma_allocation_gapless((k - 1) as nat);
        if k > 1 {
            lemma_u64_round_trip_pub((k - 1) as u64);
        }
        assert(Seq::new((k - 1) as nat, |i: int| i as SeriesId).push((k - 1) as SeriesId) =~= Seq::new(
            k,
            |i: int| i as SeriesId,
        ));
    }
}

} // verus!
