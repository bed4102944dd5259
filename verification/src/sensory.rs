//! Sensory-triggered recall.
//!
//! A sense impression (`涩`, `凉`, `颤`) recalls every memory that carries it,
//! across persons, places and time. The candidates are read from the
//! impressions' id lists in the sense index; they are then ranked by how many
//! of the asked impressions they carry, then by nearness in time to the newest
//! memory, then by the order in which they were met.
use crate::model::{str_views, MemoryMeta};
use crate::rank::{rank_lt, sort_ranked, Ranked};
use crate::store::{
    concat_lists, distinct_in_order, latest_time, latest_time_of, lemma_concat_holds, lemma_distinct_contains,
    lists_view, DAY_NS,
};
use crate::text::{contains_text, same_text};
use vstd::prelude::*;

verus! {

/// `p` is the position of the first cached memory with id `id`.
pub open spec fn is_first_with_id(entries: Seq<MemoryMeta>, id: Seq<char>, p: int) -> bool {
    0 <= p < entries.len() && entries[p].id@ == id && forall|j: int|
        0 <= j < p ==> (#[trigger] entries[j]).id@ != id
}

/// Some cached memory has id `id`.
pub open spec fn has_id(entries: Seq<MemoryMeta>, id: Seq<char>) -> bool {
    exists|p: int| is_first_with_id(entries, id, p)
}

/// The position of the first cached memory with id `id`.
pub open spec fn first_with_id(entries: Seq<MemoryMeta>, id: Seq<char>) -> int {
    choose|p: int| is_first_with_id(entries, id, p)
}

/// The memory lies within `span_days` days of the anchor (any distance when `span_days <= 0`).
pub open spec fn in_window(m: MemoryMeta, anchor: i64, span_days: i64) -> bool {
    span_days <= 0 || (-(span_days * DAY_NS) <= m.time_ns - anchor && m.time_ns - anchor <= span_days
        * DAY_NS)
}

/// The id names a cached memory that lies in the time window.
pub open spec fn recallable(entries: Seq<MemoryMeta>, id: Seq<char>, anchor: i64, span_days: i64) -> bool {
    has_id(entries, id) && in_window(entries[first_with_id(entries, id)], anchor, span_days)
}

/// The cache positions of the recallable ids, in order.
pub open spec fn recalled_positions(entries: Seq<MemoryMeta>, ids: Seq<Seq<char>>, anchor: i64, span_days: i64) -> Seq<int> {
    ids.filter(|id: Seq<char>| recallable(entries, id, anchor, span_days)).map_values(
        |id: Seq<char>| first_with_id(entries, id),
    )
}

/// The candidates of a sensory recall: every memory whose id is recorded under
/// one of the asked impressions and that lies in the time window, each once,
/// in the order their ids are first met reading the impressions' lists.
pub open spec fn sensory_candidates(entries: Seq<MemoryMeta>, ls: Seq<Seq<Seq<char>>>, span_days: i64) -> Seq<int> {
    recalled_positions(entries, distinct_in_order(concat_lists(ls)), latest_time_of(entries), span_days)
}

/// How many of the memory's sense impressions are among the asked ones.
pub open spec fn match_count(m: MemoryMeta, imps: Seq<Seq<char>>) -> int {
    str_views(m.senses@).filter(|s: Seq<char>| imps.contains(s)).len() as int
}

/// Distance in time from the anchor.
pub open spec fn anchor_distance(m: MemoryMeta, anchor: i64) -> int {
    if m.time_ns >= anchor {
        m.time_ns - anchor
    } else {
        anchor - m.time_ns
    }
}

/// Candidate `a` ranks before candidate `b` (positions in the candidate list):
/// more matching impressions, then nearer in time, then met earlier.
pub open spec fn sensory_before(
    entries: Seq<MemoryMeta>,
    cands: Seq<int>,
    imps: Seq<Seq<char>>,
    anchor: i64,
    a: int,
    b: int,
) -> bool {
    let ma = entries[cands[a]];
    let mb = entries[cands[b]];
    match_count(ma, imps) > match_count(mb, imps) || (match_count(ma, imps) == match_count(mb, imps)
        && (anchor_distance(ma, anchor) < anchor_distance(mb, anchor) || (anchor_distance(ma, anchor)
        == anchor_distance(mb, anchor) && a < b)))
}

/// `order` lists the best-ranked candidates, best first, at most `top_k` of
/// them, and every candidate left out ranks after all of them.
pub open spec fn is_sensory_order(
    entries: Seq<MemoryMeta>,
    cands: Seq<int>,
    imps: Seq<Seq<char>>,
    anchor: i64,
    top_k: int,
    order: Seq<int>,
) -> bool {
    &&& order.len() <= top_k
    &&& forall|k: int| 0 <= k < order.len() ==> 0 <= #[trigger] order[k] < cands.len()
    &&& forall|a: int, b: int|
        0 <= a < b < order.len() ==> sensory_before(entries, cands, imps, anchor, #[trigger] order[a], #[trigger] order[b])
    &&& forall|m: int|
        0 <= m < cands.len() && !order.contains(m) ==> order.len() == top_k && forall|k: int|
            0 <= k < order.len() ==> sensory_before(entries, cands, imps, anchor, #[trigger] order[k], m)
}

/// The position of the first cached memory with id `id`.
pub fn find_entry(entries: &Vec<MemoryMeta>, id: &str) -> (r: Option<usize>)
    ensures
        match r {
            Some(p) => has_id(entries@, id@) && p == first_with_id(entries@, id@),
            None => !has_id(entries@, id@),
        },
{
    let mut p: usize = 0;
    while p < entries.len()
        invariant
            0 <= p <= entries@.len(),
            forall|j: int| 0 <= j < p ==> (#[trigger] entries@[j]).id@ != id@,
        decreases entries@.len() - p,
    {
        if same_text(entries[p].id.as_str(), id) {
            assert(is_first_with_id(entries@, id@, p as int));
            let ghost c = first_with_id(entries@, id@);
            assert(c == p) by {
                if c < p {
                    assert(entries@[c].id@ != id@);
                } else if c > p {
                    assert(entries@[p as int].id@ != id@);
                }
            }
            return Some(p);
        }
        p = p + 1;
    }
    None
}

proof fn lemma_first_with_id_is(entries: Seq<MemoryMeta>, id: Seq<char>, p: int)
    requires
        is_first_with_id(entries, id, p),
    ensures
        has_id(entries, id),
        first_with_id(entries, id) == p,
{
    let c = first_with_id(entries, id);
    assert(is_first_with_id(entries, id, c));
    if c < p {
        assert(entries[c].id@ != id);
    } else if c > p {
        assert(entries[p].id@ != id);
    }
}

/// The sensory time window is closed at both ends: a memory whose id is
/// recorded under an asked impression is a candidate whenever its time is at
/// most `span_days` days from the newest memory's (any time when
/// `span_days <= 0`), a memory exactly `span_days` days older included.
pub proof fn lemma_sensory_window_is_closed(
    entries: Seq<MemoryMeta>,
    ls: Seq<Seq<Seq<char>>>,
    span_days: i64,
    i: int,
    j: int,
    p: int,
)
    requires
        0 <= i < ls.len(),
        0 <= j < ls[i].len(),
        is_first_with_id(entries, ls[i][j], p),
        span_days <= 0 || (entries[p].time_ns - latest_time_of(entries) <= span_days * DAY_NS && latest_time_of(
            entries,
        ) - entries[p].time_ns <= span_days * DAY_NS),
    ensures
        sensory_candidates(entries, ls, span_days).contains(p),
{
    let id = ls[i][j];
    let anchor = latest_time_of(entries);
    lemma_concat_holds(ls, i, j);
    lemma_distinct_contains(concat_lists(ls), id);
    let d = distinct_in_order(concat_lists(ls));
    let k = choose|k: int| 0 <= k < d.len() && d[k] == id;
    lemma_first_with_id_is(entries, id, p);
    let pred = |x: Seq<char>| recallable(entries, x, anchor, span_days);
    assert(pred(d[k]));
    d.lemma_filter_contains(pred, k);
    let fl = d.filter(pred);
    let q = choose|q: int| 0 <= q < fl.len() && fl[q] == id;
    let f = |x: Seq<char>| first_with_id(entries, x);
    assert(fl.map_values(f)[q] == p);
}

/// Every sensory candidate is a cached memory within `span_days` days of the
/// newest memory (when `span_days > 0`).
pub proof fn lemma_sensory_candidates_in_window(entries: Seq<MemoryMeta>, ls: Seq<Seq<Seq<char>>>, span_days: i64, k: int)
    requires
        0 <= k < sensory_candidates(entries, ls, span_days).len(),
    ensures
        ({
            let c = sensory_candidates(entries, ls, span_days)[k];
            &&& 0 <= c < entries.len()
            &&& span_days > 0 ==> entries[c].time_ns - latest_time_of(entries) <= span_days * DAY_NS
                && latest_time_of(entries) - entries[c].time_ns <= span_days * DAY_NS
        }),
{
    let anchor = latest_time_of(entries);
    let d = distinct_in_order(concat_lists(ls));
    let pred = |x: Seq<char>| recallable(entries, x, anchor, span_days);
    let fl = d.filter(pred);
    d.lemma_filter_pred(pred, k);
    let id = fl[k];
    assert(has_id(entries, id));
    let p = choose|p: int| is_first_with_id(entries, id, p);
    lemma_first_with_id_is(entries, id, p);
}

fn in_window_exec(m: &MemoryMeta, anchor: i64, span_days: i64) -> (b: bool)
    ensures
        b == in_window(*m, anchor, span_days),
{
    if span_days <= 0 {
        return true;
    }
    let span = span_days as i128 * DAY_NS as i128;
    let d = m.time_ns as i128 - anchor as i128;
    -span <= d && d <= span
}

fn match_count_exec(m: &MemoryMeta, imps: &Vec<String>) -> (n: usize)
    ensures
        n == match_count(*m, str_views(imps@)),
{
    let ghost ss = str_views(m.senses@);
    let ghost pred = |s: Seq<char>| str_views(imps@).contains(s);
    let mut n: usize = 0;
    let mut i: usize = 0;
    while i < m.senses.len()
        invariant
            ss == str_views(m.senses@),
            pred == (|s: Seq<char>| str_views(imps@).contains(s)),
            0 <= i <= m.senses@.len(),
            n == ss.take(i as int).filter(pred).len(),
            n <= i,
        decreases m.senses@.len() - i,
    {
        reveal_with_fuel(Seq::filter, 1);
        assert(ss.take(i + 1).drop_last() =~= ss.take(i as int));
        assert(ss.take(i + 1).last() == m.senses@[i as int]@);
        if contains_text(imps, m.senses[i].as_str()) {
            n = n + 1;
        }
        i = i + 1;
    }
    assert(ss.take(m.senses@.len() as int) =~= ss);
    n
}

fn anchor_distance_exec(m: &MemoryMeta, anchor: i64) -> (d: i128)
    ensures
        d == anchor_distance(*m, anchor),
{
    if m.time_ns >= anchor {
        m.time_ns as i128 - anchor as i128
    } else {
        anchor as i128 - m.time_ns as i128
    }
}

/// Sensory recall over the store: the cache positions of the best-ranked
/// memories carrying the asked impressions, best first, at most `top_k`.
///
/// `id_lists` holds, for each impression, its list from the sense index
/// (empty when the impression was never recorded).
pub fn sensory_recall(
    entries: &Vec<MemoryMeta>,
    impressions: &Vec<String>,
    id_lists: &Vec<Vec<String>>,
    top_k: usize,
    narrative_span_days: i64,
) -> (r: Vec<usize>)
    ensures
        ({
            let cands = sensory_candidates(entries@, lists_view(id_lists@), narrative_span_days);
            exists|order: Seq<int>|
                is_sensory_order(entries@, cands, str_views(impressions@), latest_time_of(entries@), top_k as int, order)
                    && r@.len() == order.len() && forall|k: int| 0 <= k < order.len() ==> #[trigger] r@[k] == cands[order[k]]
        }),
{
    let anchor = latest_time(entries);
    let ghost ls = lists_view(id_lists@);
    let mut seen: Vec<String> = Vec::new();
    let mut cand: Vec<usize> = Vec::new();
    let mut i: usize = 0;
    while i < id_lists.len()
        invariant
            anchor == latest_time_of(entries@),
            ls == lists_view(id_lists@),
            0 <= i <= id_lists@.len(),
            forall|k: int| 0 <= k < cand@.len() ==> #[trigger] cand@[k] < entries@.len(),
            str_views(seen@) == distinct_in_order(concat_lists(ls.take(i as int))),
            cand@.map_values(|p: usize| p as int) == recalled_positions(entries@, distinct_in_order(concat_lists(ls.take(i as int))), anchor, narrative_span_days),
        decreases id_lists@.len() - i,
    {
        let ghost before = concat_lists(ls.take(i as int));
        let ids = &id_lists[i];
        let ghost l = str_views(ids@);
        assert(l == ls[i as int]);
        let mut j: usize = 0;
        while j < ids.len()
            invariant
                anchor == latest_time_of(entries@),
                l == str_views(ids@),
                0 <= j <= ids@.len(),
                forall|k: int| 0 <= k < cand@.len() ==> #[trigger] cand@[k] < entries@.len(),
                str_views(seen@) == distinct_in_order(before + l.take(j as int)),
                cand@.map_values(|p: usize| p as int) == recalled_positions(entries@, distinct_in_order(before + l.take(j as int)), anchor, narrative_span_days),
            decreases ids@.len() - j,
        {
            let ghost cur = before + l.take(j as int);
            let ghost next = before + l.take(j + 1);
            assert(next.drop_last() =~= cur);
            assert(next.last() == ids@[j as int]@);
            let ghost prev_cand = cand@;
            let ghost pred = |id: Seq<char>| recallable(entries@, id, anchor, narrative_span_days);
            let ghost f = |id: Seq<char>| first_with_id(entries@, id);
            if !contains_text(&seen, ids[j].as_str()) {
                let ghost prev_seen = seen@;
                seen.push(ids[j].clone());
                assert(str_views(seen@) =~= str_views(prev_seen).push(ids@[j as int]@));
                let ghost dc = distinct_in_order(cur);
                assert(distinct_in_order(next) == dc.push(ids@[j as int]@));
                proof {
                    reveal_with_fuel(Seq::filter, 1);
                    assert(dc.push(ids@[j as int]@).drop_last() =~= dc);
                }
                match find_entry(entries, ids[j].as_str()) {
                    Some(p) => {
                        if in_window_exec(&entries[p], anchor, narrative_span_days) {
                            cand.push(p);
                            assert(recallable(entries@, ids@[j as int]@, anchor, narrative_span_days));
                            assert(dc.push(ids@[j as int]@).filter(pred) == dc.filter(pred).push(ids@[j as int]@));
                            assert(cand@.map_values(|p: usize| p as int) =~= prev_cand.map_values(|p: usize| p as int).push(p as int));
                            assert(dc.filter(pred).push(ids@[j as int]@).map_values(f) =~= dc.filter(pred).map_values(f).push(f(ids@[j as int]@)));
                        } else {
                            assert(!recallable(entries@, ids@[j as int]@, anchor, narrative_span_days));
                            assert(dc.push(ids@[j as int]@).filter(pred) == dc.filter(pred));
                        }
                    },
                    None => {
                        assert(!recallable(entries@, ids@[j as int]@, anchor, narrative_span_days));
                        assert(dc.push(ids@[j as int]@).filter(pred) == dc.filter(pred));
                    },
                }
            } else {
                assert(distinct_in_order(next) == distinct_in_order(cur));
            }
            j = j + 1;
        }
        proof {
            assert(ls.take(i + 1).drop_last() =~= ls.take(i as int));
            assert(ls.take(i + 1).last() == l);
            assert(l.take(j as int) =~= l);
            assert(concat_lists(ls.take(i + 1)) == before + l.take(j as int));
        }
        i = i + 1;
    }
    assert(ls.take(i as int) =~= ls);
    let ghost cands = cand@.map_values(|p: usize| p as int);
    assert(cands == sensory_candidates(entries@, ls, narrative_span_days));
    // Rank the candidates.
    let ghost imps = str_views(impressions@);
    let mut items: Vec<Ranked> = Vec::new();
    let mut m: usize = 0;
    while m < cand.len()
        invariant
            0 <= m <= cand@.len(),
            imps == str_views(impressions@),
            items@.len() == m,
            forall|k: int| 0 <= k < cand@.len() ==> #[trigger] cand@[k] < entries@.len(),
            forall|k: int|
                0 <= k < m ==> {
                    let c = #[trigger] items@[k];
                    &&& c.2 == k
                    &&& c.0 == -match_count(entries@[cand@[k] as int], imps)
                    &&& c.1 == anchor_distance(entries@[cand@[k] as int], anchor)
                },
        decreases cand@.len() - m,
    {
        let e = &entries[cand[m]];
        let cnt = match_count_exec(e, impressions);
        let dist = anchor_distance_exec(e, anchor);
        let ghost prev = items@;
        items.push((-(cnt as i128), dist, m));
        assert forall|k: int| 0 <= k < m implies #[trigger] items@[k] == prev[k] by {}
        m = m + 1;
    }
    let sorted = sort_ranked(&items);
    assert forall|q: int| 0 <= q < sorted@.len() implies (#[trigger] sorted@[q]).2 < cand@.len()
        && sorted@[q] == items@[sorted@[q].2 as int] by {
        assert(items@.contains(sorted@[q]));
        let w = choose|w: int| 0 <= w < items@.len() && items@[w] == sorted@[q];
    }
    let mut r: Vec<usize> = Vec::new();
    let mut k: usize = 0;
    while k < sorted.len() && k < top_k
        invariant
            0 <= k <= sorted@.len(),
            k <= top_k,
            forall|q: int| 0 <= q < sorted@.len() ==> (#[trigger] sorted@[q]).2 < cand@.len(),
            r@.len() == k,
            forall|q: int| 0 <= q < k ==> #[trigger] r@[q] == cand@[sorted@[q].2 as int],
        decreases sorted@.len() - k,
    {
        r.push(cand[sorted[k].2]);
        k = k + 1;
    }
    proof {
        let order = sorted@.take(r@.len() as int).map_values(|x: Ranked| x.2 as int);
        let anchor_s = latest_time_of(entries@);
        assert(cands.len() == cand@.len());
        assert forall|a: int, b: int| 0 <= a < sorted@.len() && 0 <= b < sorted@.len() && rank_lt(sorted@[a], sorted@[b])
            implies #[trigger] sensory_before(entries@, cands, imps, anchor_s, sorted@[a].2 as int, sorted@[b].2 as int) by {
            let ia = sorted@[a].2 as int;
            let ib = sorted@[b].2 as int;
            assert(items@[ia] == sorted@[a]);
            assert(items@[ib] == sorted@[b]);
            assert(cands[ia] == cand@[ia] as int);
            assert(cands[ib] == cand@[ib] as int);
        }
        assert forall|a: int, b: int| 0 <= a < b < order.len() implies sensory_before(entries@, cands, imps, anchor_s, #[trigger] order[a], #[trigger] order[b]) by {
            assert(rank_lt(sorted@[a], sorted@[b]));
        }
        assert forall|mm: int| 0 <= mm < cands.len() && !order.contains(mm) implies order.len() == top_k && forall|q: int|
            0 <= q < order.len() ==> sensory_before(entries@, cands, imps, anchor_s, #[trigger] order[q], mm) by {
            assert(items@[mm].2 == mm);
            assert(sorted@.contains(items@[mm]));
            let ms = choose|ms: int| 0 <= ms < sorted@.len() && sorted@[ms] == items@[mm];
            if ms < order.len() {
                assert(order[ms] == mm);
            }
            assert forall|q: int| 0 <= q < order.len() implies sensory_before(entries@, cands, imps, anchor_s, #[trigger] order[q], mm) by {
                assert(rank_lt(sorted@[q], sorted@[ms]));
            }
        }
        assert forall|q: int| 0 <= q < order.len() implies #[trigger] r@[q] == cands[order[q]] by {
            assert(cands[order[q]] == cand@[order[q]] as int);
        }
        assert(is_sensory_order(entries@, cands, imps, anchor_s, top_k as int, order));
    }
    r
}

} // verus!
