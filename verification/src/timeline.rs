//! Keys of the timeline index.
//!
//! A timeline key is the memory's time, offset by 2^63 so that every `i64`
//! maps in order onto the unsigned range (the sign bit flipped), as eight
//! big-endian bytes, followed by the bytes of its id. The index, ordered
//! bytewise, is therefore ordered by time, negative times included. A scan of
//! `[timeline_start(from), timeline_end(to))` visits exactly the memories whose
//! time lies in `from..=to`.
use vstd::prelude::*;
use vstd::string::StringSliceAdditionalSpecFns;

verus! {

/// The eight big-endian bytes of `u`.
pub open spec fn u64_be_bytes(u: u64) -> Seq<u8> {
    seq![
        ((u >> 56u64) & 0xffu64) as u8,
        ((u >> 48u64) & 0xffu64) as u8,
        ((u >> 40u64) & 0xffu64) as u8,
        ((u >> 32u64) & 0xffu64) as u8,
        ((u >> 24u64) & 0xffu64) as u8,
        ((u >> 16u64) & 0xffu64) as u8,
        ((u >> 8u64) & 0xffu64) as u8,
        (u & 0xffu64) as u8,
    ]
}

/// A time shifted by 2^63 onto the unsigned range: its two's-complement bits
/// with the sign bit flipped. Earlier times give smaller numbers.
pub open spec fn sortable(x: i64) -> u64 {
    (x + 0x8000_0000_0000_0000) as u64
}

/// The eight big-endian bytes of a time, in time order (see `sortable`).
pub open spec fn i64_be_bytes(x: i64) -> Seq<u8> {
    u64_be_bytes(sortable(x))
}

/// The key of a memory at `time_ns` with id bytes `id`.
pub open spec fn spec_timeline_key(time_ns: i64, id: Seq<u8>) -> Seq<u8> {
    i64_be_bytes(time_ns) + id
}

/// The first key of a scan that starts at `time_ns`.
pub open spec fn spec_timeline_start(time_ns: i64) -> Seq<u8> {
    i64_be_bytes(time_ns)
}

/// The exclusive end of a scan that ends at `time_ns` (inclusive).
pub open spec fn spec_timeline_end(time_ns: i64) -> Seq<u8> {
    i64_be_bytes(time_ns).push(0xffu8)
}

fn push_be_bytes(k: &mut Vec<u8>, time_ns: i64)
    ensures
        final(k)@ == old(k)@ + i64_be_bytes(time_ns),
{
    let u: u64 = if time_ns >= 0 {
        time_ns as u64 + 0x8000_0000_0000_0000u64
    } else {
        ((time_ns + 1) + i64::MAX) as u64
    };
    assert(u == sortable(time_ns));
    k.push(((u >> 56u64) & 0xffu64) as u8);
    k.push(((u >> 48u64) & 0xffu64) as u8);
    k.push(((u >> 40u64) & 0xffu64) as u8);
    k.push(((u >> 32u64) & 0xffu64) as u8);
    k.push(((u >> 24u64) & 0xffu64) as u8);
    k.push(((u >> 16u64) & 0xffu64) as u8);
    k.push(((u >> 8u64) & 0xffu64) as u8);
    k.push((u & 0xffu64) as u8);
    assert(k@ =~= old(k)@ + i64_be_bytes(time_ns));
}

/// The timeline key of a memory: its time in order-preserving big-endian bytes,
/// then the UTF-8 bytes of its id.
pub fn timeline_key(time_ns: i64, id: &str) -> (k: Vec<u8>)
    ensures
        k@ == spec_timeline_key(time_ns, id.spec_bytes()),
{
    let mut k: Vec<u8> = Vec::new();
    push_be_bytes(&mut k, time_ns);
    let idb = id.as_bytes();
    let mut i: usize = 0;
    while i < idb.len()
        invariant
            0 <= i <= idb@.len(),
            idb@ == id.spec_bytes(),
            k@ == i64_be_bytes(time_ns) + idb@.subrange(0, i as int),
        decreases idb@.len() - i,
    {
        k.push(idb[i]);
        i = i + 1;
        assert(k@ =~= i64_be_bytes(time_ns) + idb@.subrange(0, i as int));
    }
    assert(idb@.subrange(0, idb@.len() as int) =~= idb@);
    k
}

/// The key at which a scan from `time_ns` starts.
pub fn timeline_start(time_ns: i64) -> (k: Vec<u8>)
    ensures
        k@ == spec_timeline_start(time_ns),
{
    let mut k: Vec<u8> = Vec::new();
    push_be_bytes(&mut k, time_ns);
    assert(k@ =~= i64_be_bytes(time_ns));
    k
}

/// The exclusive end key of a scan that includes `time_ns`.
pub fn timeline_end(time_ns: i64) -> (k: Vec<u8>)
    ensures
        k@ == spec_timeline_end(time_ns),
{
    let mut k: Vec<u8> = Vec::new();
    push_be_bytes(&mut k, time_ns);
    k.push(0xffu8);
    assert(k@ =~= i64_be_bytes(time_ns).push(0xffu8));
    k
}

/// `k` witnesses that `a` comes before `b` bytewise: they agree on their first
/// `k` bytes, and then `a` ends while `b` goes on, or `a` has the smaller byte.
pub open spec fn lex_witness(a: Seq<u8>, b: Seq<u8>, k: int) -> bool {
    &&& 0 <= k <= a.len()
    &&& k <= b.len()
    &&& a.subrange(0, k) == b.subrange(0, k)
    &&& ((k == a.len() && k < b.len()) || (k < a.len() && k < b.len() && a[k] < b[k]))
}

/// Bytewise (lexicographic) order, the order in which the index keeps its keys.
pub open spec fn bytes_lt(a: Seq<u8>, b: Seq<u8>) -> bool {
    exists|k: int| #[trigger] lex_witness(a, b, k)
}

/// `a` is greater than `b` at position `j`, where they first differ.
proof fn lemma_not_lt_if_greater_at(a: Seq<u8>, b: Seq<u8>, j: int)
    requires
        0 <= j < a.len(),
        j < b.len(),
        a.subrange(0, j) == b.subrange(0, j),
        a[j] > b[j],
    ensures
        !bytes_lt(a, b),
{
    if bytes_lt(a, b) {
        let k = choose|k: int| #[trigger] lex_witness(a, b, k);
        if k < j {
            assert(a.subrange(0, j)[k] == a[k]);
            assert(b.subrange(0, j)[k] == b[k]);
        } else if k > j {
            assert(a.subrange(0, k)[j] == a[j]);
            assert(b.subrange(0, k)[j] == b[j]);
        }
    }
}

/// A sequence never comes before one of its prefixes.
proof fn lemma_not_lt_prefix(a: Seq<u8>, b: Seq<u8>)
    requires
        b.len() <= a.len(),
        a.subrange(0, b.len() as int) == b,
    ensures
        !bytes_lt(a, b),
{
    if bytes_lt(a, b) {
        let k = choose|k: int| #[trigger] lex_witness(a, b, k);
        assert(a.subrange(0, b.len() as int)[k] == a[k]);
    }
}

/// Where two numbers differ, their big-endian bytes first differ in the same direction.
proof fn lemma_be_first_difference(x: u64, y: u64) -> (j: int)
    requires
        x < y,
    ensures
        0 <= j < 8,
        u64_be_bytes(x).subrange(0, j) == u64_be_bytes(y).subrange(0, j),
        u64_be_bytes(x)[j] < u64_be_bytes(y)[j],
{
    assert(((x >> 56u64) & 0xffu64) < 256 && ((y >> 56u64) & 0xffu64) < 256 && ((x >> 48u64)
        & 0xffu64) < 256 && ((y >> 48u64) & 0xffu64) < 256 && ((x >> 40u64) & 0xffu64) < 256
        && ((y >> 40u64) & 0xffu64) < 256 && ((x >> 32u64) & 0xffu64) < 256 && ((y >> 32u64)
        & 0xffu64) < 256 && ((x >> 24u64) & 0xffu64) < 256 && ((y >> 24u64) & 0xffu64) < 256
        && ((x >> 16u64) & 0xffu64) < 256 && ((y >> 16u64) & 0xffu64) < 256 && ((x >> 8u64)
        & 0xffu64) < 256 && ((y >> 8u64) & 0xffu64) < 256 && (x & 0xffu64) < 256 && (y
        & 0xffu64) < 256) by (bit_vector);
    let bx = u64_be_bytes(x);
    let by = u64_be_bytes(y);
    let x0 = (x >> 56u64) & 0xffu64;
    let y0 = (y >> 56u64) & 0xffu64;
    let x1 = (x >> 48u64) & 0xffu64;
    let y1 = (y >> 48u64) & 0xffu64;
    let x2 = (x >> 40u64) & 0xffu64;
    let y2 = (y >> 40u64) & 0xffu64;
    let x3 = (x >> 32u64) & 0xffu64;
    let y3 = (y >> 32u64) & 0xffu64;
    let x4 = (x >> 24u64) & 0xffu64;
    let y4 = (y >> 24u64) & 0xffu64;
    let x5 = (x >> 16u64) & 0xffu64;
    let y5 = (y >> 16u64) & 0xffu64;
    let x6 = (x >> 8u64) & 0xffu64;
    let y6 = (y >> 8u64) & 0xffu64;
    let x7 = x & 0xffu64;
    let y7 = y & 0xffu64;
    assert(x < y ==> x0 <= y0) by (bit_vector)
        requires
            x0 == (x >> 56u64) & 0xffu64,
            y0 == (y >> 56u64) & 0xffu64,
    ;
    if x0 != y0 {
        assert(bx.subrange(0, 0) =~= by.subrange(0, 0));
        return 0;
    }
    assert(x < y && x0 == y0 ==> x1 <= y1) by (bit_vector)
        requires
            x0 == (x >> 56u64) & 0xffu64,
            y0 == (y >> 56u64) & 0xffu64,
            x1 == (x >> 48u64) & 0xffu64,
            y1 == (y >> 48u64) & 0xffu64,
    ;
    if x1 != y1 {
        assert(bx.subrange(0, 1) =~= by.subrange(0, 1));
        return 1;
    }
    assert(x < y && x0 == y0 && x1 == y1 ==> x2 <= y2) by (bit_vector)
        requires
            x0 == (x >> 56u64) & 0xffu64,
            y0 == (y >> 56u64) & 0xffu64,
            x1 == (x >> 48u64) & 0xffu64,
            y1 == (y >> 48u64) & 0xffu64,
            x2 == (x >> 40u64) & 0xffu64,
            y2 == (y >> 40u64) & 0xffu64,
    ;
    if x2 != y2 {
        assert(bx.subrange(0, 2) =~= by.subrange(0, 2));
        return 2;
    }
    assert(x < y && x0 == y0 && x1 == y1 && x2 == y2 ==> x3 <= y3) by (bit_vector)
        requires
            x0 == (x >> 56u64) & 0xffu64,
            y0 == (y >> 56u64) & 0xffu64,
            x1 == (x >> 48u64) & 0xffu64,
            y1 == (y >> 48u64) & 0xffu64,
            x2 == (x >> 40u64) & 0xffu64,
            y2 == (y >> 40u64) & 0xffu64,
            x3 == (x >> 32u64) & 0xffu64,
            y3 == (y >> 32u64) & 0xffu64,
    ;
    if x3 != y3 {
        assert(bx.subrange(0, 3) =~= by.subrange(0, 3));
        return 3;
    }
    assert(x < y && x0 == y0 && x1 == y1 && x2 == y2 && x3 == y3 ==> x4 <= y4) by (bit_vector)
        requires
            x0 == (x >> 56u64) & 0xffu64,
            y0 == (y >> 56u64) & 0xffu64,
            x1 == (x >> 48u64) & 0xffu64,
            y1 == (y >> 48u64) & 0xffu64,
            x2 == (x >> 40u64) & 0xffu64,
            y2 == (y >> 40u64) & 0xffu64,
            x3 == (x >> 32u64) & 0xffu64,
            y3 == (y >> 32u64) & 0xffu64,
            x4 == (x >> 24u64) & 0xffu64,
            y4 == (y >> 24u64) & 0xffu64,
    ;
    if x4 != y4 {
        assert(bx.subrange(0, 4) =~= by.subrange(0, 4));
        return 4;
    }
    assert(x < y && x0 == y0 && x1 == y1 && x2 == y2 && x3 == y3 && x4 == y4 ==> x5 <= y5)
        by (bit_vector)
        requires
            x0 == (x >> 56u64) & 0xffu64,
            y0 == (y >> 56u64) & 0xffu64,
            x1 == (x >> 48u64) & 0xffu64,
            y1 == (y >> 48u64) & 0xffu64,
            x2 == (x >> 40u64) & 0xffu64,
            y2 == (y >> 40u64) & 0xffu64,
            x3 == (x >> 32u64) & 0xffu64,
            y3 == (y >> 32u64) & 0xffu64,
            x4 == (x >> 24u64) & 0xffu64,
            y4 == (y >> 24u64) & 0xffu64,
            x5 == (x >> 16u64) & 0xffu64,
            y5 == (y >> 16u64) & 0xffu64,
    ;
    if x5 != y5 {
        assert(bx.subrange(0, 5) =~= by.subrange(0, 5));
        return 5;
    }
    assert(x < y && x0 == y0 && x1 == y1 && x2 == y2 && x3 == y3 && x4 == y4 && x5 == y5 ==> x6
        <= y6) by (bit_vector)
        requires
            x0 == (x >> 56u64) & 0xffu64,
            y0 == (y >> 56u64) & 0xffu64,
            x1 == (x >> 48u64) & 0xffu64,
            y1 == (y >> 48u64) & 0xffu64,
            x2 == (x >> 40u64) & 0xffu64,
            y2 == (y >> 40u64) & 0xffu64,
            x3 == (x >> 32u64) & 0xffu64,
            y3 == (y >> 32u64) & 0xffu64,
            x4 == (x >> 24u64) & 0xffu64,
            y4 == (y >> 24u64) & 0xffu64,
            x5 == (x >> 16u64) & 0xffu64,
            y5 == (y >> 16u64) & 0xffu64,
            x6 == (x >> 8u64) & 0xffu64,
            y6 == (y >> 8u64) & 0xffu64,
    ;
    if x6 != y6 {
        assert(bx.subrange(0, 6) =~= by.subrange(0, 6));
        return 6;
    }
    assert(x < y && x0 == y0 && x1 == y1 && x2 == y2 && x3 == y3 && x4 == y4 && x5 == y5 && x6
        == y6 ==> x7 < y7) by (bit_vector)
        requires
            x0 == (x >> 56u64) & 0xffu64,
            y0 == (y >> 56u64) & 0xffu64,
            x1 == (x >> 48u64) & 0xffu64,
            y1 == (y >> 48u64) & 0xffu64,
            x2 == (x >> 40u64) & 0xffu64,
            y2 == (y >> 40u64) & 0xffu64,
            x3 == (x >> 32u64) & 0xffu64,
            y3 == (y >> 32u64) & 0xffu64,
            x4 == (x >> 24u64) & 0xffu64,
            y4 == (y >> 24u64) & 0xffu64,
            x5 == (x >> 16u64) & 0xffu64,
            y5 == (y >> 16u64) & 0xffu64,
            x6 == (x >> 8u64) & 0xffu64,
            y6 == (y >> 8u64) & 0xffu64,
            x7 == x & 0xffu64,
            y7 == y & 0xffu64,
    ;
    assert(bx.subrange(0, 7) =~= by.subrange(0, 7));
    7
}

/// Keys order as times do: an earlier time gives a key that comes first,
/// whatever the ids.
pub proof fn lemma_timeline_keys_follow_time(t1: i64, t2: i64, id1: Seq<u8>, id2: Seq<u8>)
    requires
        t1 < t2,
    ensures
        bytes_lt(spec_timeline_key(t1, id1), spec_timeline_key(t2, id2)),
{
    let a = spec_timeline_key(t1, id1);
    let b = spec_timeline_key(t2, id2);
    let j = lemma_be_first_difference(sortable(t1), sortable(t2));
    assert(a.subrange(0, j) =~= i64_be_bytes(t1).subrange(0, j));
    assert(b.subrange(0, j) =~= i64_be_bytes(t2).subrange(0, j));
    assert(lex_witness(a, b, j));
}

/// A scan of the timeline from `timeline_start(from)` up to (excluding)
/// `timeline_end(to)` meets the key of a memory exactly when its time lies in
/// `from..=to`, for every time, negative ones included. The id does not begin
/// with the byte 0xff, which UTF-8 text never holds.
pub proof fn lemma_timeline_scan(from: i64, to: i64, t: i64, id: Seq<u8>)
    requires
        id.len() == 0 || id[0] < 0xffu8,
    ensures
        (!bytes_lt(spec_timeline_key(t, id), spec_timeline_start(from)) && bytes_lt(
            spec_timeline_key(t, id),
            spec_timeline_end(to),
        )) <==> (from <= t && t <= to),
{
    let key = spec_timeline_key(t, id);
    let bt = i64_be_bytes(t);
    assert(key.subrange(0, 8) =~= bt);
    // Lower bound.
    if from == t {
        lemma_not_lt_prefix(key, spec_timeline_start(from));
    } else if from < t {
        let j = lemma_be_first_difference(sortable(from), sortable(t));
        assert(key.subrange(0, j) =~= bt.subrange(0, j));
        lemma_not_lt_if_greater_at(key, spec_timeline_start(from), j);
    } else {
        let j = lemma_be_first_difference(sortable(t), sortable(from));
        assert(key.subrange(0, j) =~= bt.subrange(0, j));
        assert(lex_witness(key, spec_timeline_start(from), j));
    }
    // Upper bound.
    let end = spec_timeline_end(to);
    assert(end.subrange(0, 8) =~= i64_be_bytes(to));
    if t == to {
        assert(key.subrange(0, 8) =~= end.subrange(0, 8));
        assert(lex_witness(key, end, 8));
    } else if t < to {
        let j = lemma_be_first_difference(sortable(t), sortable(to));
        assert(key.subrange(0, j) =~= bt.subrange(0, j));
        assert(end.subrange(0, j) =~= i64_be_bytes(to).subrange(0, j));
        assert(lex_witness(key, end, j));
    } else {
        let j = lemma_be_first_difference(sortable(to), sortable(t));
        assert(key.subrange(0, j) =~= bt.subrange(0, j));
        assert(end.subrange(0, j) =~= i64_be_bytes(to).subrange(0, j));
        lemma_not_lt_if_greater_at(key, end, j);
    }
}

} // verus!
