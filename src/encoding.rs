//! Byte layouts: data-point keys, scan bounds and posting lists.
use vstd::prelude::*;
use crate::query::postings::{in_any, strictly_sorted, union};
use crate::{SeriesId, Timestamp};

verus! {

/// The eight big-endian bytes of `x`.
pub open spec fn u64_be(x: u64) -> Seq<u8> {
    seq![
        (x >> 56u64) as u8,
        (x >> 48u64) as u8,
        (x >> 40u64) as u8,
        (x >> 32u64) as u8,
        (x >> 24u64) as u8,
        (x >> 16u64) as u8,
        (x >> 8u64) as u8,
        x as u8,
    ]
}

/// The number whose big-endian bytes are the first eight of `s`.
pub open spec fn u64_of_be(s: Seq<u8>) -> u64 {
    ((s[0] as u64) << 56u64) | ((s[1] as u64) << 48u64) | ((s[2] as u64) << 40u64) | ((s[3]
        as u64) << 32u64) | ((s[4] as u64) << 24u64) | ((s[5] as u64) << 16u64) | ((s[6] as u64)
        << 8u64) | (s[7] as u64)
}

/// `a` sorts before `b` byte by byte: they agree up to some position where
/// `a` holds the smaller byte.
pub open spec fn bytes_before(a: Seq<u8>, b: Seq<u8>) -> bool {
    exists|k: int| 0 <= k < a.len() && k < b.len() && a.take(k) == b.take(k) && a[k] < b[k]
}

proof fn lemma_u64_be_order(x: u64, y: u64)
    requires
        x < y,
    ensures
        bytes_before(u64_be(x), u64_be(y)),
{
    let a = u64_be(x);
    let b = u64_be(y);

    assert((true) ==> (x >> 56u64) as u8 <= (y >> 56u64) as u8) by (bit_vector)
        requires
            x < y,
    ;
    assert((true) && (x >> 56u64) as u8 == (y >> 56u64) as u8 ==> x >> 56u64 == y >> 56u64) by (bit_vector);

    assert((x >> 56u64 == y >> 56u64) ==> (x >> 48u64) as u8 <= (y >> 48u64) as u8) by (bit_vector)
        requires
            x < y,
    ;
    assert((x >> 56u64 == y >> 56u64) && (x >> 48u64) as u8 == (y >> 48u64) as u8 ==> x >> 48u64 == y >> 48u64) by (bit_vector);

    assert((x >> 48u64 == y >> 48u64) ==> (x >> 40u64) as u8 <= (y >> 40u64) as u8) by (bit_vector)
        requires
            x < y,
    ;
    assert((x >> 48u64 == y >> 48u64) && (x >> 40u64) as u8 == (y >> 40u64) as u8 ==> x >> 40u64 == y >> 40u64) by (bit_vector);

    assert((x >> 40u64 == y >> 40u64) ==> (x >> 32u64) as u8 <= (y >> 32u64) as u8) by (bit_vector)
        requires
            x < y,
    ;
    assert((x >> 40u64 == y >> 40u64) && (x >> 32u64) as u8 == (y >> 32u64) as u8 ==> x >> 32u64 == y >> 32u64) by (bit_vector);

    assert((x >> 32u64 == y >> 32u64) ==> (x >> 24u64) as u8 <= (y >> 24u64) as u8) by (bit_vector)
        requires
            x < y,
    ;
    assert((x >> 32u64 == y >> 32u64) && (x >> 24u64) as u8 == (y >> 24u64) as u8 ==> x >> 24u64 == y >> 24u64) by (bit_vector);

    assert((x >> 24u64 == y >> 24u64) ==> (x >> 16u64) as u8 <= (y >> 16u64) as u8) by (bit_vector)
        requires
            x < y,
    ;
    assert((x >> 24u64 == y >> 24u64) && (x >> 16u64) as u8 == (y >> 16u64) as u8 ==> x >> 16u64 == y >> 16u64) by (bit_vector);

    assert((x >> 16u64 == y >> 16u64) ==> (x >> 8u64) as u8 <= (y >> 8u64) as u8) by (bit_vector)
        requires
            x < y,
    ;
    assert((x >> 16u64 == y >> 16u64) && (x >> 8u64) as u8 == (y >> 8u64) as u8 ==> x >> 8u64 == y >> 8u64) by (bit_vector);

    assert((x >> 8u64 == y >> 8u64) ==> (x >> 0u64) as u8 <= (y >> 0u64) as u8) by (bit_vector)
        requires
            x < y,
    ;
    assert((x >> 8u64 == y >> 8u64) && (x >> 0u64) as u8 == (y >> 0u64) as u8 ==> x >> 0u64 == y >> 0u64) by (bit_vector);

    assert(x >> 0u64 == x && y >> 0u64 == y) by (bit_vector);

    if a[0] != b[0] {
        assert(a.take(0) =~= b.take(0));
        assert(bytes_before(a, b));
        return;
    }

    if a[1] != b[1] {
        assert(a.take(1) =~= b.take(1));
        assert(bytes_before(a, b));
        return;
    }

    if a[2] != b[2] {
        assert(a.take(2) =~= b.take(2));
        assert(bytes_before(a, b));
        return;
    }

    if a[3] != b[3] {
        assert(a.take(3) =~= b.take(3));
        assert(bytes_before(a, b));
        return;
    }

    if a[4] != b[4] {
        assert(a.take(4) =~= b.take(4));
        assert(bytes_before(a, b));
        return;
    }

    if a[5] != b[5] {
        assert(a.take(5) =~= b.take(5));
        assert(bytes_before(a, b));
        return;
    }

    if a[6] != b[6] {
        assert(a.take(6) =~= b.take(6));
        assert(bytes_before(a, b));
        return;
    }

    if a[7] != b[7] {
        assert(a.take(7) =~= b.take(7));
        assert(bytes_before(a, b));
        return;
    }

}

proof fn lemma_before_extend(p: Seq<u8>, a: Seq<u8>, b: Seq<u8>)
    requires
        bytes_before(a, b),
    ensures
        bytes_before(p + a, p + b),
{
    let k = choose|k: int| 0 <= k < a.len() && k < b.len() && a.take(k) == b.take(k) && a[k] < b[k];
    assert((p + a).take(p.len() + k) =~= p + a.take(k));
    assert((p + b).take(p.len() + k) =~= p + b.take(k));
    assert((p + a)[p.len() + k] == a[k]);
    assert((p + b)[p.len() + k] == b[k]);
}

proof fn lemma_before_prefix(a: Seq<u8>, b: Seq<u8>, c: Seq<u8>, d: Seq<u8>)
    requires
        bytes_before(a, b),
    ensures
        bytes_before(a + c, b + d),
{
    let k = choose|k: int| 0 <= k < a.len() && k < b.len() && a.take(k) == b.take(k) && a[k] < b[k];
    assert((a + c).take(k) =~= a.take(k));
    assert((b + d).take(k) =~= b.take(k));
    assert((a + c)[k] == a[k]);
    assert((b + d)[k] == b[k]);
}

/// The sixteen big-endian bytes of `x`: its upper half, then its lower half.
pub open spec fn u128_be(x: u128) -> Seq<u8> {
    u64_be((x >> 64u128) as u64) + u64_be(x as u64)
}

/// The key of a sample: the series ID, then the bitwise complement of the
/// timestamp, both big-endian, so that newer samples of a series sort first.
pub open spec fn data_point_key(id: SeriesId, ts: Timestamp) -> Seq<u8> {
    u64_be(id) + u128_be(!ts)
}

pub fn u64_to_be(x: u64, out: &mut Vec<u8>)
    ensures
        final(out)@ == old(out)@ + u64_be(x),
{
    out.push((x >> 56u64) as u8);
    out.push((x >> 48u64) as u8);
    out.push((x >> 40u64) as u8);
    out.push((x >> 32u64) as u8);
    out.push((x >> 24u64) as u8);
    out.push((x >> 16u64) as u8);
    out.push((x >> 8u64) as u8);
    out.push(x as u8);
    assert(out@ =~= old(out)@ + u64_be(x));
}

/// Reads eight big-endian bytes at `at`.
pub fn u64_from_be(b: &[u8], at: usize) -> (r: u64)
    requires
        at + 8 <= b@.len(),
    ensures
        u64_be(r) == b@.subrange(at as int, at + 8),
        r == u64_of_be(b@.subrange(at as int, at + 8)),
{
    let b0 = b[at];
    let b1 = b[at + 1];
    let b2 = b[at + 2];
    let b3 = b[at + 3];
    let b4 = b[at + 4];
    let b5 = b[at + 5];
    let b6 = b[at + 6];
    let b7 = b[at + 7];
    let r: u64 = ((b0 as u64) << 56u64) | ((b1 as u64) << 48u64) | ((b2 as u64) << 40u64) | ((b3
        as u64) << 32u64) | ((b4 as u64) << 24u64) | ((b5 as u64) << 16u64) | ((b6 as u64)
        << 8u64) | (b7 as u64);
    assert(((r >> 56u64) as u8) == b0 && ((r >> 48u64) as u8) == b1 && ((r >> 40u64) as u8) == b2
        && ((r >> 32u64) as u8) == b3 && ((r >> 24u64) as u8) == b4 && ((r >> 16u64) as u8) == b5
        && ((r >> 8u64) as u8) == b6 && (r as u8) == b7) by (bit_vector)
        requires
            r == ((b0 as u64) << 56u64) | ((b1 as u64) << 48u64) | ((b2 as u64) << 40u64) | ((b3
                as u64) << 32u64) | ((b4 as u64) << 24u64) | ((b5 as u64) << 16u64) | ((b6 as u64)
                << 8u64) | (b7 as u64),
    ;
    assert(u64_be(r) =~= b@.subrange(at as int, at + 8));
    let ghost sub = b@.subrange(at as int, at + 8);
    assert(sub[0] == b0 && sub[1] == b1 && sub[2] == b2 && sub[3] == b3 && sub[4] == b4 && sub[5]
        == b5 && sub[6] == b6 && sub[7] == b7);
    r
}

proof fn lemma_u64_round_trip(x: u64)
    ensures
        u64_of_be(u64_be(x)) == x,
{
    let s = u64_be(x);
    let b0 = s[0];
    let b1 = s[1];
    let b2 = s[2];
    let b3 = s[3];
    let b4 = s[4];
    let b5 = s[5];
    let b6 = s[6];
    let b7 = s[7];
    assert(((b0 as u64) << 56u64) | ((b1 as u64) << 48u64) | ((b2 as u64) << 40u64) | ((b3
        as u64) << 32u64) | ((b4 as u64) << 24u64) | ((b5 as u64) << 16u64) | ((b6 as u64)
        << 8u64) | (b7 as u64) == x) by (bit_vector)
        requires
            b0 == (x >> 56u64) as u8,
            b1 == (x >> 48u64) as u8,
            b2 == (x >> 40u64) as u8,
            b3 == (x >> 32u64) as u8,
            b4 == (x >> 24u64) as u8,
            b5 == (x >> 16u64) as u8,
            b6 == (x >> 8u64) as u8,
            b7 == x as u8,
    ;
}

/// Equal big-endian bytes mean equal numbers.
pub proof fn lemma_u64_be_injective(x: u64, y: u64)
    requires
        u64_be(x) == u64_be(y),
    ensures
        x == y,
{
    assert(u64_be(x)[0] == u64_be(y)[0]);
    assert(u64_be(x)[1] == u64_be(y)[1]);
    assert(u64_be(x)[2] == u64_be(y)[2]);
    assert(u64_be(x)[3] == u64_be(y)[3]);
    assert(u64_be(x)[4] == u64_be(y)[4]);
    assert(u64_be(x)[5] == u64_be(y)[5]);
    assert(u64_be(x)[6] == u64_be(y)[6]);
    assert(u64_be(x)[7] == u64_be(y)[7]);
    assert(x == y) by (bit_vector)
        requires
            (x >> 56u64) as u8 == (y >> 56u64) as u8,
            (x >> 48u64) as u8 == (y >> 48u64) as u8,
            (x >> 40u64) as u8 == (y >> 40u64) as u8,
            (x >> 32u64) as u8 == (y >> 32u64) as u8,
            (x >> 24u64) as u8 == (y >> 24u64) as u8,
            (x >> 16u64) as u8 == (y >> 16u64) as u8,
            (x >> 8u64) as u8 == (y >> 8u64) as u8,
            x as u8 == y as u8,
    ;
}

pub proof fn lemma_u128_be_injective(x: u128, y: u128)
    requires
        u128_be(x) == u128_be(y),
    ensures
        x == y,
{
    let hx = (x >> 64u128) as u64;
    let hy = (y >> 64u128) as u64;
    assert(u128_be(x).subrange(0, 8) =~= u64_be(hx));
    assert(u128_be(y).subrange(0, 8) =~= u64_be(hy));
    assert(u128_be(x).subrange(8, 16) =~= u64_be(x as u64));
    assert(u128_be(y).subrange(8, 16) =~= u64_be(y as u64));
    lemma_u64_be_injective(hx, hy);
    lemma_u64_be_injective(x as u64, y as u64);
    assert(x == y) by (bit_vector)
        requires
            (x >> 64u128) as u64 == (y >> 64u128) as u64,
            x as u64 == y as u64,
    ;
}

pub fn u128_to_be(x: u128, out: &mut Vec<u8>)
    ensures
        final(out)@ == old(out)@ + u128_be(x),
{
    u64_to_be((x >> 64u128) as u64, out);
    u64_to_be(x as u64, out);
    assert(out@ =~= old(out)@ + u128_be(x));
}

pub fn u128_from_be(b: &[u8], at: usize) -> (r: u128)
    requires
        at + 16 <= b@.len(),
    ensures
        u128_be(r) == b@.subrange(at as int, at + 16),
{
    let n = b.len();
    let hi = u64_from_be(b, at);
    let lo = u64_from_be(b, at + 8);
    let r: u128 = ((hi as u128) << 64u128) | (lo as u128);
    assert((r >> 64u128) as u64 == hi && r as u64 == lo) by (bit_vector)
        requires
            r == ((hi as u128) << 64u128) | (lo as u128),
    ;
    assert(u128_be(r) =~= b@.subrange(at as int, at + 16));
    r
}

/// The key under which a sample of `series_id` at `ts` is stored.
pub fn format_data_point_key(series_id: SeriesId, ts: Timestamp) -> (r: Vec<u8>)
    ensures
        r@ == data_point_key(series_id, ts),
{
    let mut k: Vec<u8> = Vec::new();
    u64_to_be(series_id, &mut k);
    u128_to_be(!ts, &mut k);
    assert(k@ =~= data_point_key(series_id, ts));
    k
}

/// The series and timestamp of a stored sample's key; `None` unless the key
/// has the 24 bytes of that layout.
pub fn parse_data_point_key(key: &[u8]) -> (r: Option<(SeriesId, Timestamp)>)
    ensures
        match r {
            Some((id, ts)) => key@ == data_point_key(id, ts),
            None => key@.len() != 24,
        },
{
    if key.len() != 24 {
        return None;
    }
    let id = u64_from_be(key, 0);
    let inv = u128_from_be(key, 8);
    let ts = !inv;
    assert(!ts == inv) by (bit_vector)
        requires
            ts == !inv,
    ;
    assert(key@ =~= data_point_key(id, ts));
    Some((id, ts))
}

/// A key determines its series and timestamp.
pub proof fn lemma_data_point_key_injective(id1: SeriesId, ts1: Timestamp, id2: SeriesId, ts2: Timestamp)
    requires
        data_point_key(id1, ts1) == data_point_key(id2, ts2),
    ensures
        id1 == id2,
        ts1 == ts2,
{
    assert(data_point_key(id1, ts1).subrange(0, 8) =~= u64_be(id1));
    assert(data_point_key(id2, ts2).subrange(0, 8) =~= u64_be(id2));
    assert(data_point_key(id1, ts1).subrange(8, 24) =~= u128_be(!ts1));
    assert(data_point_key(id2, ts2).subrange(8, 24) =~= u128_be(!ts2));
    lemma_u64_be_injective(id1, id2);
    lemma_u128_be_injective(!ts1, !ts2);
    assert(ts1 == ts2) by (bit_vector)
        requires
            !ts1 == !ts2,
    ;
}

/// Inclusive key bounds of a forward scan over the samples of a series with
/// timestamps in `[min, max]`: the newest admitted sample's key first. An
/// absent bound admits everything on its side.
pub fn scan_bounds(series_id: SeriesId, min: Option<Timestamp>, max: Option<Timestamp>) -> (r: (
    Vec<u8>,
    Vec<u8>,
))
    ensures
        r.0@ == data_point_key(series_id, match max {
            Some(t) => t,
            None => u128::MAX,
        }),
        r.1@ == data_point_key(series_id, match min {
            Some(t) => t,
            None => 0,
        }),
{
    let hi = match max {
        Some(t) => t,
        None => u128::MAX,
    };
    let lo = match min {
        Some(t) => t,
        None => 0,
    };
    (format_data_point_key(series_id, hi), format_data_point_key(series_id, lo))
}

/// The IDs of a posting list, eight big-endian bytes each.
pub open spec fn ids_be(s: Seq<SeriesId>) -> Seq<u8>
    decreases s.len(),
{
    if s.len() == 0 {
        Seq::empty()
    } else {
        ids_be(s.drop_last()) + u64_be(s.last())
    }
}

/// A stored posting list: its length, then its IDs, all big-endian.
pub open spec fn posting_list_bytes(s: Seq<SeriesId>) -> Seq<u8> {
    u64_be(s.len() as u64) + ids_be(s)
}

/// The posting list that stored bytes hold: a length `n` in the first eight
/// bytes, then `n` IDs; bytes after them are ignored. `None` where the bytes
/// are too short.
pub open spec fn decoded_postings(b: Seq<u8>) -> Option<Seq<SeriesId>> {
    if b.len() < 8 {
        None
    } else {
        let n = u64_of_be(b);
        if 8 + 8 * n > b.len() {
            None
        } else {
            Some(Seq::new(n as nat, |i: int| u64_of_be(b.subrange(8 + 8 * i, 16 + 8 * i))))
        }
    }
}

proof fn lemma_ids_be(s: Seq<SeriesId>, i: int)
    requires
        0 <= i < s.len(),
    ensures
        ids_be(s).len() == 8 * s.len(),
        ids_be(s).subrange(8 * i, 8 * i + 8) == u64_be(s[i]),
    decreases s.len(),
{
    lemma_ids_be_len(s);
    if i < s.len() - 1 {
        lemma_ids_be(s.drop_last(), i);
        assert(ids_be(s).subrange(8 * i, 8 * i + 8) =~= ids_be(s.drop_last()).subrange(8 * i, 8 * i + 8));
    } else {
        lemma_ids_be_len(s.drop_last());
        assert(ids_be(s).subrange(8 * i, 8 * i + 8) =~= u64_be(s.last()));
    }
}

proof fn lemma_ids_be_len(s: Seq<SeriesId>)
    ensures
        ids_be(s).len() == 8 * s.len(),
    decreases s.len(),
{
    if s.len() > 0 {
        lemma_ids_be_len(s.drop_last());
    }
}

/// Decoding what was encoded gives back the list.
pub proof fn lemma_posting_list_round_trip(s: Seq<SeriesId>)
    requires
        s.len() <= u64::MAX,
    ensures
        decoded_postings(posting_list_bytes(s)) == Some(s),
{
    let b = posting_list_bytes(s);
    lemma_ids_be_len(s);
    assert(b.subrange(0, 8) =~= u64_be(s.len() as u64));
    lemma_u64_round_trip(s.len() as u64);
    assert(u64_of_be(b) == u64_of_be(b.subrange(0, 8)));
    let d = Seq::new(s.len(), |i: int| u64_of_be(b.subrange(8 + 8 * i, 16 + 8 * i)));
    assert forall|i: int| 0 <= i < s.len() implies d[i] == s[i] by {
        lemma_ids_be(s, i);
        assert(b.subrange(8 + 8 * i, 16 + 8 * i) =~= ids_be(s).subrange(8 * i, 8 * i + 8));
        lemma_u64_round_trip(s[i]);
    }
    assert(d =~= s);
}

/// Encodes a posting list.
pub fn serialize_postings_list(postings: &[SeriesId]) -> (r: Vec<u8>)
    ensures
        r@ == posting_list_bytes(postings@),
{
    let mut out: Vec<u8> = Vec::new();
    u64_to_be(postings.len() as u64, &mut out);
    let mut i: usize = 0;
    assert(postings@.take(0) =~= Seq::<SeriesId>::empty());
    while i < postings.len()
        invariant
            i <= postings@.len(),
            out@ == u64_be(postings@.len() as u64) + ids_be(postings@.take(i as int)),
        decreases postings@.len() - i,
    {
        u64_to_be(postings[i], &mut out);
        assert(postings@.take(i + 1).drop_last() =~= postings@.take(i as int));
        assert(out@ =~= u64_be(postings@.len() as u64) + ids_be(postings@.take(i + 1)));
        i = i + 1;
    }
    assert(postings@.take(postings@.len() as int) =~= postings@);
    out
}

/// Decodes a stored posting list; `None` where the bytes are too short for
/// the length they announce.
pub fn deserialize_postings_list(bytes: &[u8]) -> (r: Option<Vec<SeriesId>>)
    ensures
        match r {
            Some(v) => decoded_postings(bytes@) == Some(v@),
            None => decoded_postings(bytes@) is None,
        },
{
    let n = bytes.len();
    if n < 8 {
        return None;
    }
    let len = u64_from_be(bytes, 0);
    assert(u64_of_be(bytes@.subrange(0, 8)) == u64_of_be(bytes@));
    if (len as u128) * 8 + 8 > n as u128 {
        return None;
    }
    let count = len as usize;
    let mut v: Vec<SeriesId> = Vec::new();
    let mut i: usize = 0;
    while i < count
        invariant
            n == bytes@.len(),
            count == len,
            8 + 8 * count <= n,
            i <= count,
            v@.len() == i,
            forall|k: int| 0 <= k < i ==> v@[k] == u64_of_be(#[trigger] bytes@.subrange(8 + 8 * k, 16 + 8 * k)),
        decreases count - i,
    {
        let x = u64_from_be(bytes, 8 + 8 * i);
        v.push(x);
        i = i + 1;
    }
    assert(v@ =~= Seq::new(len as nat, |k: int| u64_of_be(bytes@.subrange(8 + 8 * k, 16 + 8 * k))));
    Some(v)
}

/// The new stored form of a posting list after `series_id` is appended to
/// it; `None` where the stored bytes are no posting list.
pub fn append_posting(existing: Option<&[u8]>, series_id: SeriesId) -> (r: Option<Vec<u8>>)
    ensures
        match existing {
            None => r matches Some(b) && b@ == posting_list_bytes(seq![series_id]),
            Some(old) => match decoded_postings(old@) {
                Some(s) => r matches Some(b) && b@ == posting_list_bytes(s.push(series_id)),
                None => r is None,
            },
        },
{
    match existing {
        None => {
            let one = vec![series_id];
            assert(one@ =~= seq![series_id]);
            Some(serialize_postings_list(one.as_slice()))
        },
        Some(old) => match deserialize_postings_list(old) {
            Some(mut v) => {
                v.push(series_id);
                Some(serialize_postings_list(v.as_slice()))
            },
            None => None,
        },
    }
}

proof fn lemma_u128_be_order(x: u128, y: u128)
    requires
        x < y,
    ensures
        bytes_before(u128_be(x), u128_be(y)),
{
    let hx = (x >> 64u128) as u64;
    let hy = (y >> 64u128) as u64;
    assert(hx <= hy) by (bit_vector)
        requires
            x < y,
            hx == (x >> 64u128) as u64,
            hy == (y >> 64u128) as u64,
    ;
    if hx < hy {
        lemma_u64_be_order(hx, hy);
        lemma_before_prefix(u64_be(hx), u64_be(hy), u64_be(x as u64), u64_be(y as u64));
    } else {
        assert((x as u64) < (y as u64)) by (bit_vector)
            requires
                x < y,
                (x >> 64u128) as u64 == (y >> 64u128) as u64,
        ;
        lemma_u64_be_order(x as u64, y as u64);
        lemma_before_extend(u64_be(hx), u64_be(x as u64), u64_be(y as u64));
    }
}

/// Within one series, a newer sample's key sorts before an older one's, so a
/// forward scan of the keys yields samples newest first.
pub proof fn lemma_newer_sorts_first(id: SeriesId, older: Timestamp, newer: Timestamp)
    requires
        older < newer,
    ensures
        bytes_before(data_point_key(id, newer), data_point_key(id, older)),
{
    assert(!newer < !older) by (bit_vector)
        requires
            older < newer,
    ;
    lemma_u128_be_order(!newer, !older);
    lemma_before_extend(u64_be(id), u128_be(!newer), u128_be(!older));
}

proof fn lemma_before_asymmetric(a: Seq<u8>, b: Seq<u8>)
    requires
        bytes_before(a, b),
    ensures
        !bytes_before(b, a),
        a != b,
{
    let k = choose|k: int| 0 <= k < a.len() && k < b.len() && a.take(k) == b.take(k) && a[k] < b[k];
    if bytes_before(b, a) {
        let j = choose|j: int| 0 <= j < b.len() && j < a.len() && b.take(j) == a.take(j) && b[j] < a[j];
        if j < k {
            assert(a.take(k)[j] == b.take(k)[j]);
        } else if k < j {
            assert(a.take(j)[k] == b.take(j)[k]);
        }
    }
}

/// Whether key `k` lies in the inclusive key range `[lo, hi]`.
pub open spec fn in_key_range(k: Seq<u8>, lo: Seq<u8>, hi: Seq<u8>) -> bool {
    (lo == k || bytes_before(lo, k)) && (k == hi || bytes_before(k, hi))
}

/// A scan between the bounds of `scan_bounds(id, Some(min), Some(max))`
/// meets the key of a sample of series `id` exactly when the sample's
/// timestamp lies in `[min, max]`; so a scan of `[ts, ts]` meets exactly the
/// sample written at `ts`.
pub proof fn lemma_scan_range_exact(id: SeriesId, ts: Timestamp, min: Timestamp, max: Timestamp)
    ensures
        in_key_range(data_point_key(id, ts), data_point_key(id, max), data_point_key(id, min))
            <==> (min <= ts && ts <= max),
{
    let k = data_point_key(id, ts);
    let lo = data_point_key(id, max);
    let hi = data_point_key(id, min);
    if ts < max {
        lemma_newer_sorts_first(id, ts, max);
    } else if ts > max {
        lemma_newer_sorts_first(id, max, ts);
        lemma_before_asymmetric(k, lo);
    }
    if ts > min {
        lemma_newer_sorts_first(id, min, ts);
    } else if ts < min {
        lemma_newer_sorts_first(id, ts, min);
        lemma_before_asymmetric(hi, k);
    }
}

/// Open bounds scan the whole series: with `scan_bounds(id, None, None)`,
/// every sample key of series `id` lies between the bounds.
pub proof fn lemma_unbounded_scan_is_full(id: SeriesId, ts: Timestamp)
    ensures
        in_key_range(data_point_key(id, ts), data_point_key(id, u128::MAX), data_point_key(id, 0)),
{
    lemma_scan_range_exact(id, ts, 0, u128::MAX);
}

/// Crossed bounds (`start > end`) scan nothing: no sample key of the series
/// lies between them.
pub proof fn lemma_crossed_scan_is_empty(id: SeriesId, ts: Timestamp, min: Timestamp, max: Timestamp)
    requires
        min > max,
    ensures
        !in_key_range(data_point_key(id, ts), data_point_key(id, max), data_point_key(id, min)),
{
    lemma_scan_range_exact(id, ts, min, max);
}

/// Reading back the eight bytes of `x` gives `x`.
pub proof fn lemma_u64_round_trip_pub(x: u64)
    ensures
        u64_of_be(u64_be(x)) == x,
        u64_be(x).len() == 8,
{
    lemma_u64_round_trip(x);
}

/// The stored posting lists, every one of which decodes.
pub open spec fn all_decode(values: Seq<Vec<u8>>) -> bool {
    forall|i: int| 0 <= i < values.len() ==> (#[trigger] decoded_postings(values[i]@)) is Some
}

/// Unites the posting lists stored under every term of a prefix: ascending,
/// without repeats. `None` where one of them does not decode.
pub fn unite_stored_postings(values: &[Vec<u8>]) -> (r: Option<Vec<SeriesId>>)
    ensures
        match r {
            Some(ids) => all_decode(values@) && strictly_sorted(ids@) && forall|x: SeriesId|
                ids@.contains(x) <==> exists|i: int|
                    0 <= i < values@.len() && (#[trigger] decoded_postings(values@[i]@))->0.contains(x),
            None => !all_decode(values@),
        },
{
    let mut lists: Vec<Vec<SeriesId>> = Vec::new();
    let mut i: usize = 0;
    while i < values.len()
        invariant
            i <= values@.len(),
            lists@.len() == i,
            forall|k: int| 0 <= k < i ==> #[trigger] decoded_postings(values@[k]@) == Some(lists@[k]@),
        decreases values@.len() - i,
    {
        match deserialize_postings_list(values[i].as_slice()) {
            Some(v) => {
                lists.push(v);
            },
            None => {
                return None;
            },
        }
        i = i + 1;
    }
    let ids = union(lists.as_slice());
    proof {
        assert forall|x: SeriesId| ids@.contains(x) <==> exists|i: int|
            0 <= i < values@.len() && (#[trigger] decoded_postings(values@[i]@))->0.contains(x) by {
            if in_any(lists@, x) {
                let j = choose|j: int| 0 <= j < lists@.len() && (#[trigger] lists@[j]@).contains(x);
                assert(decoded_postings(values@[j]@)->0.contains(x));
            }
            if exists|i: int| 0 <= i < values@.len() && (#[trigger] decoded_postings(values@[i]@))->0.contains(x) {
                let j = choose|i: int| 0 <= i < values@.len() && (#[trigger] decoded_postings(values@[i]@))->0.contains(x);
                assert((lists@[j]@).contains(x));
            }
        }
    }
    Some(ids)
}

} // verus!
