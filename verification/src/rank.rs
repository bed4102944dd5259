//! Ordering of ranked candidates.
//!
//! A candidate is `(major, minor, pos)`: it is ranked by `major`, then
//! `minor`, then by its position `pos` in the input, which keeps equal ranks
//! in input order (a stable sort).
use vstd::prelude::*;

verus! {

/// A ranked candidate: major key, minor key, input position.
pub type Ranked = (i128, i128, usize);

/// `x` is ranked strictly before `y`.
pub open spec fn rank_lt(x: Ranked, y: Ranked) -> bool {
    x.0 < y.0 || (x.0 == y.0 && (x.1 < y.1 || (x.1 == y.1 && x.2 < y.2)))
}

/// The candidates are in strictly increasing rank.
pub open spec fn rank_sorted(s: Seq<Ranked>) -> bool {
    forall|i: int, j: int| 0 <= i < j < s.len() ==> rank_lt(#[trigger] s[i], #[trigger] s[j])
}

/// No two candidates share a position.
pub open spec fn distinct_positions(s: Seq<Ranked>) -> bool {
    forall|i: int, j: int| 0 <= i < j < s.len() ==> (#[trigger] s[i]).2 != (#[trigger] s[j]).2
}

fn ranked_before(x: Ranked, y: Ranked) -> (b: bool)
    ensures
        b == rank_lt(x, y),
{
    x.0 < y.0 || (x.0 == y.0 && (x.1 < y.1 || (x.1 == y.1 && x.2 < y.2)))
}

/// Sorts candidates with distinct positions into increasing rank.
pub fn sort_ranked(items: &Vec<Ranked>) -> (out: Vec<Ranked>)
    requires
        distinct_positions(items@),
    ensures
        rank_sorted(out@),
        out@.len() == items@.len(),
        forall|x: Ranked| out@.contains(x) <==> items@.contains(x),
{
    let mut out: Vec<Ranked> = Vec::new();
    let mut i: usize = 0;
    while i < items.len()
        invariant
            distinct_positions(items@),
            0 <= i <= items@.len(),
            rank_sorted(out@),
            out@.len() == i,
            forall|x: Ranked| out@.contains(x) <==> items@.take(i as int).contains(x),
        decreases items@.len() - i,
    {
        let x = items[i];
        assert forall|k: int| 0 <= k < out@.len() implies (#[trigger] out@[k]).2 != x.2 by {
            assert(out@.contains(out@[k]));
            let t0 = items@.take(i as int);
            let m = choose|m: int| 0 <= m < t0.len() && t0[m] == out@[k];
            assert(items@[m] == out@[k]);
        }
        let mut j: usize = 0;
        while j < out.len() && !ranked_before(x, out[j])
            invariant
                0 <= j <= out@.len(),
                forall|k: int| 0 <= k < j ==> !rank_lt(x, #[trigger] out@[k]),
            decreases out@.len() - j,
        {
            j = j + 1;
        }
        let ghost before = out@;
        out.insert(j, x);
        assert(rank_sorted(out@)) by {
            assert forall|a: int, b: int| 0 <= a < b < out@.len() implies rank_lt(
                #[trigger] out@[a],
                #[trigger] out@[b],
            ) by {
                if b < j {
                    assert(out@[a] == before[a] && out@[b] == before[b]);
                } else if a > j {
                    assert(out@[a] == before[a - 1] && out@[b] == before[b - 1]);
                } else if a == j {
                    assert(out@[b] == before[b - 1]);
                    if b - 1 > j {
                        assert(rank_lt(before[j as int], before[b - 1]));
                    }
                } else if b == j {
                    assert(out@[a] == before[a]);
                    assert(!rank_lt(x, before[a]));
                    assert(before[a].2 != x.2);
                } else {
                    assert(out@[a] == before[a] && out@[b] == before[b - 1]);
                    assert(!rank_lt(x, before[a]));
                }
            }
        }
        assert forall|y: Ranked| out@.contains(y) <==> items@.take(i + 1).contains(y) by {
            let t0 = items@.take(i as int);
            let t1 = items@.take(i + 1);
            assert(t1 =~= t0.push(x));
            if out@.contains(y) {
                let k = choose|k: int| 0 <= k < out@.len() && out@[k] == y;
                if k == j {
                    assert(t1[i as int] == y);
                } else {
                    if k < j {
                        assert(before[k] == y);
                    } else {
                        assert(before[k - 1] == y);
                    }
                    assert(before.contains(y));
                    assert(t0.contains(y));
                    let m = choose|m: int| 0 <= m < t0.len() && t0[m] == y;
                    assert(t1[m] == y);
                }
            }
            if t1.contains(y) {
                let m = choose|m: int| 0 <= m < t1.len() && t1[m] == y;
                if m == i {
                    assert(out@[j as int] == y);
                } else {
                    assert(t0[m] == y);
                    assert(t0.contains(y));
                    assert(before.contains(y));
                    let k = choose|k: int| 0 <= k < before.len() && before[k] == y;
                    if k < j {
                        assert(out@[k] == y);
                    } else {
                        assert(out@[k + 1] == y);
                    }
                }
            }
        }
        i = i + 1;
    }
    assert(items@.take(items@.len() as int) =~= items@);
    out
}

} // verus!
