//! The store's rules: the sense index, the chapter clock, and queries over
//! the cache of memories.
//!
//! The store keeps every memory in an ordered cache (insertion order) and, per
//! sense impression, the list of ids of the memories that carry it. The
//! functions here decide what those structures become and what queries over
//! them return; reading and writing the database file is done by the caller.
use crate::model::{str_views, ContainerStats, MemoryMeta};
use crate::rank::{rank_lt, sort_ranked, Ranked};
use crate::text::{chars_of, contains_str, contains_text, has_prefix, is_prefix, is_substring, same_text};
use vstd::string::StringSliceAdditionalSpecFns;
use vstd::utf8::{decode_utf8, encode_utf8, is_char_boundary};
use vstd::prelude::*;

verus! {

// ── Cache queries ──
/// `t` is the latest time among the entries that satisfy `sel`.
pub open spec fn is_latest_among(entries: Seq<MemoryMeta>, sel: spec_fn(MemoryMeta) -> bool, t: i64) -> bool {
    &&& exists|i: int| 0 <= i < entries.len() && sel(#[trigger] entries[i]) && entries[i].time_ns == t
    &&& forall|i: int| 0 <= i < entries.len() && sel(#[trigger] entries[i]) ==> entries[i].time_ns <= t
}

/// `t` is the earliest time among the entries.
pub open spec fn is_earliest(entries: Seq<MemoryMeta>, t: i64) -> bool {
    &&& exists|i: int| 0 <= i < entries.len() && #[trigger] entries[i].time_ns == t
    &&& forall|i: int| 0 <= i < entries.len() ==> t <= #[trigger] entries[i].time_ns
}

/// `t` is the latest time in the cache.
pub open spec fn is_latest(entries: Seq<MemoryMeta>, t: i64) -> bool {
    is_latest_among(entries, |m: MemoryMeta| true, t)
}

/// The latest narrative time in the cache, 0 when it is empty.
pub open spec fn latest_time_of(entries: Seq<MemoryMeta>) -> i64 {
    if entries.len() == 0 {
        0
    } else {
        choose|t: i64| #[trigger] is_latest(entries, t)
    }
}

/// The latest time is unique.
pub proof fn lemma_latest_unique(entries: Seq<MemoryMeta>, sel: spec_fn(MemoryMeta) -> bool, t: i64, u: i64)
    requires
        is_latest_among(entries, sel, t),
        is_latest_among(entries, sel, u),
    ensures
        t == u,
{
    let i = choose|i: int| 0 <= i < entries.len() && sel(#[trigger] entries[i]) && entries[i].time_ns == t;
    let j = choose|j: int| 0 <= j < entries.len() && sel(#[trigger] entries[j]) && entries[j].time_ns == u;
}

/// The latest narrative time in the cache (0 when it is empty).
pub fn latest_time(entries: &Vec<MemoryMeta>) -> (t: i64)
    ensures
        t == latest_time_of(entries@),
        entries@.len() > 0 ==> is_latest(entries@, t),
{
    let mut best: i64 = 0;
    let mut i: usize = 0;
    while i < entries.len()
        invariant
            0 <= i <= entries@.len(),
            i > 0 ==> exists|k: int| 0 <= k < i && #[trigger] entries@[k].time_ns == best,
            i == 0 ==> best == 0,
            forall|k: int| 0 <= k < i ==> #[trigger] entries@[k].time_ns <= best,
        decreases entries@.len() - i,
    {
        if i == 0 || entries[i].time_ns > best {
            best = entries[i].time_ns;
        }
        i = i + 1;
    }
    proof {
        if entries@.len() > 0 {
            assert(is_latest(entries@, best));
            let c = choose|t: i64| #[trigger] is_latest(entries@, t);
            let a = choose|a: int| 0 <= a < entries@.len() && #[trigger] entries@[a].time_ns == c;
            let b = choose|b: int| 0 <= b < entries@.len() && #[trigger] entries@[b].time_ns == best;
            assert(entries@[a].time_ns <= best);
            assert(entries@[b].time_ns <= c);
            assert(c == best);
        } else {
            assert(latest_time_of(entries@) == 0);
        }
    }
    best
}

/// The earliest and latest narrative times in the cache; `None` when it is empty.
pub fn time_span(entries: &Vec<MemoryMeta>) -> (r: Option<(i64, i64)>)
    ensures
        match r {
            None => entries@.len() == 0,
            Some((lo, hi)) => is_earliest(entries@, lo) && is_latest(entries@, hi),
        },
{
    if entries.len() == 0 {
        return None;
    }
    let mut lo: i64 = entries[0].time_ns;
    let mut i: usize = 1;
    while i < entries.len()
        invariant
            1 <= i <= entries@.len(),
            exists|k: int| 0 <= k < i && #[trigger] entries@[k].time_ns == lo,
            forall|k: int| 0 <= k < i ==> lo <= #[trigger] entries@[k].time_ns,
        decreases entries@.len() - i,
    {
        if entries[i].time_ns < lo {
            lo = entries[i].time_ns;
        }
        i = i + 1;
    }
    let hi = latest_time(entries);
    Some((lo, hi))
}

/// The most recent `n` cache entries, oldest first (all of them when there are fewer).
pub open spec fn recent_range<T>(cache: Seq<T>, n: int) -> Seq<T> {
    if n < cache.len() {
        cache.subrange(cache.len() - n, cache.len() as int)
    } else {
        cache
    }
}

/// The most recent `n` cached memories, oldest first.
pub fn recent<T: Clone>(cache: &Vec<T>, n: usize) -> (r: Vec<T>)
    ensures
        r@.len() == recent_range(cache@, n as int).len(),
        forall|i: int| 0 <= i < r@.len() ==> cloned::<T>(recent_range(cache@, n as int)[i], #[trigger] r@[i]),
{
    let len = cache.len();
    let start = if len <= n { 0 } else { len - n };
    let ghost w = recent_range(cache@, n as int);
    assert(w =~= cache@.subrange(start as int, len as int));
    let mut r: Vec<T> = Vec::new();
    let mut i: usize = start;
    while i < len
        invariant
            len == cache@.len(),
            start <= i <= len,
            w == cache@.subrange(start as int, len as int),
            r@.len() == i - start,
            forall|k: int| 0 <= k < r@.len() ==> cloned::<T>(w[k], #[trigger] r@[k]),
        decreases len - i,
    {
        let x = cache[i].clone();
        r.push(x);
        i = i + 1;
    }
    r
}

/// The most recent `n` cached memories, newest first.
pub fn indexed_recent<T: Clone>(cache: &Vec<T>, n: usize) -> (r: Vec<T>)
    ensures
        r@.len() == recent_range(cache@, n as int).len(),
        forall|i: int| 0 <= i < r@.len() ==> cloned::<T>(recent_range(cache@, n as int).reverse()[i], #[trigger] r@[i]),
{
    let len = cache.len();
    let start = if len <= n { 0 } else { len - n };
    let ghost w = recent_range(cache@, n as int);
    assert(w =~= cache@.subrange(start as int, len as int));
    let mut r: Vec<T> = Vec::new();
    let mut i: usize = len;
    while i > start
        invariant
            len == cache@.len(),
            start <= i <= len,
            w == cache@.subrange(start as int, len as int),
            r@.len() == len - i,
            forall|k: int| 0 <= k < r@.len() ==> cloned::<T>(w.reverse()[k], #[trigger] r@[k]),
        decreases i - start,
    {
        i = i - 1;
        let x = cache[i].clone();
        assert(w.reverse()[(len - 1 - i) as int] == cache@[i as int]);
        r.push(x);
    }
    r
}

/// The containers of each memory.
pub open spec fn containers_of(ms: Seq<MemoryMeta>) -> Seq<Seq<Seq<char>>> {
    ms.map_values(|m: MemoryMeta| str_views(m.containers@))
}

/// The containers used by the most recent `n` memories, each once, newest
/// memory first and in each memory's order.
pub open spec fn spec_recent_containers(entries: Seq<MemoryMeta>, n: int) -> Seq<Seq<char>> {
    distinct_in_order(concat_lists(containers_of(recent_range(entries, n).reverse())))
}

/// The containers used by the most recent `n` memories (see `spec_recent_containers`).
pub fn recent_containers(entries: &Vec<MemoryMeta>, n: usize) -> (r: Vec<String>)
    ensures
        str_views(r@) == spec_recent_containers(entries@, n as int),
{
    let len = entries.len();
    let start = if len <= n { 0 } else { len - n };
    let ghost w = containers_of(recent_range(entries@, n as int).reverse());
    assert(recent_range(entries@, n as int) =~= entries@.subrange(start as int, len as int));
    let mut r: Vec<String> = Vec::new();
    let mut q: usize = 0;
    while q < len - start
        invariant
            len == entries@.len(),
            start <= len,
            w == containers_of(entries@.subrange(start as int, len as int).reverse()),
            w.len() == len - start,
            0 <= q <= len - start,
            str_views(r@) == distinct_in_order(concat_lists(w.take(q as int))),
        decreases len - start - q,
    {
        let m = &entries[len - 1 - q];
        let ghost before = concat_lists(w.take(q as int));
        let ghost l = str_views(m.containers@);
        assert(w[q as int] == l);
        let mut j: usize = 0;
        while j < m.containers.len()
            invariant
                l == str_views(m.containers@),
                0 <= j <= m.containers@.len(),
                str_views(r@) == distinct_in_order(before + l.take(j as int)),
            decreases m.containers@.len() - j,
        {
            assert((before + l.take(j + 1)).drop_last() =~= before + l.take(j as int));
            assert((before + l.take(j + 1)).last() == m.containers@[j as int]@);
            let ghost prev = r@;
            if !contains_text(&r, m.containers[j].as_str()) {
                r.push(m.containers[j].clone());
                assert(str_views(r@) =~= str_views(prev).push(m.containers@[j as int]@));
            }
            j = j + 1;
        }
        assert(l.take(j as int) =~= l);
        assert(w.take(q + 1).drop_last() =~= w.take(q as int));
        q = q + 1;
    }
    assert(w.take(q as int) =~= w);
    r
}

/// Every container occurrence with the time of its memory, memory after memory.
pub open spec fn timed_containers(entries: Seq<MemoryMeta>) -> Seq<(Seq<char>, i64)>
    decreases entries.len(),
{
    if entries.len() == 0 {
        Seq::empty()
    } else {
        timed_containers(entries.drop_last()) + timed_of(entries.last())
    }
}

/// The containers of one memory, each with the memory's time.
pub open spec fn timed_of(m: MemoryMeta) -> Seq<(Seq<char>, i64)> {
    str_views(m.containers@).map_values(|c: Seq<char>| (c, m.time_ns))
}

/// How often `name` occurs.
pub open spec fn occurrence_count(occ: Seq<(Seq<char>, i64)>, name: Seq<char>) -> int {
    occ.filter(|o: (Seq<char>, i64)| o.0 == name).len() as int
}

/// The latest time at which `name` occurs, never below 0.
pub open spec fn latest_occurrence(occ: Seq<(Seq<char>, i64)>, name: Seq<char>) -> i64
    decreases occ.len(),
{
    if occ.len() == 0 {
        0
    } else {
        let r = latest_occurrence(occ.drop_last(), name);
        if occ.last().0 == name && occ.last().1 > r {
            occ.last().1
        } else {
            r
        }
    }
}

/// `name` occurs among the occurrences.
pub open spec fn occurs(occ: Seq<(Seq<char>, i64)>, name: Seq<char>) -> bool {
    exists|k: int| 0 <= k < occ.len() && (#[trigger] occ[k]).0 == name
}

/// The statistics hold one entry per container used, with its number of
/// occurrences and latest time.
pub open spec fn stats_describe(stats: Seq<ContainerStats>, occ: Seq<(Seq<char>, i64)>) -> bool {
    &&& forall|k: int|
        0 <= k < stats.len() ==> (#[trigger] stats[k]).count == occurrence_count(occ, stats[k].name@)
            && stats[k].latest_time_ns == latest_occurrence(occ, stats[k].name@)
    &&& forall|a: int, b: int| 0 <= a < b < stats.len() ==> (#[trigger] stats[a]).name@ != (#[trigger] stats[b]).name@
    &&& forall|name: Seq<char>| occurs(occ, name) <==> exists|k: int| 0 <= k < stats.len() && (#[trigger] stats[k]).name@ == name
}

proof fn lemma_occurrence_push(occ: Seq<(Seq<char>, i64)>, o: (Seq<char>, i64), name: Seq<char>)
    ensures
        occurrence_count(occ.push(o), name) == occurrence_count(occ, name) + if o.0 == name { 1int } else { 0int },
        latest_occurrence(occ.push(o), name) == if o.0 == name && o.1 > latest_occurrence(occ, name) { o.1 } else { latest_occurrence(occ, name) },
        occurs(occ.push(o), name) == (occurs(occ, name) || o.0 == name),
        occurrence_count(occ, name) <= occ.len(),
{
    reveal_with_fuel(Seq::filter, 1);
    assert(occ.push(o).drop_last() =~= occ);
    occ.filter(|x: (Seq<char>, i64)| x.0 == name).lemma_filter_len(|x: (Seq<char>, i64)| x.0 == name);
    occ.lemma_filter_len(|x: (Seq<char>, i64)| x.0 == name);
    if occurs(occ.push(o), name) && o.0 != name {
        let k = choose|k: int| 0 <= k < occ.push(o).len() && (#[trigger] occ.push(o)[k]).0 == name;
        assert(occ[k] == occ.push(o)[k]);
    }
    if occurs(occ, name) {
        let k = choose|k: int| 0 <= k < occ.len() && (#[trigger] occ[k]).0 == name;
        assert(occ.push(o)[k] == occ[k]);
    }
    if o.0 == name {
        assert(occ.push(o)[occ.len() as int] == o);
    }
}

fn copy_stats(c: &ContainerStats) -> (r: ContainerStats)
    ensures
        r == *c,
{
    ContainerStats { name: c.name.clone(), count: c.count, latest_time_ns: c.latest_time_ns }
}

/// How each container is used: per container, its number of occurrences and
/// the latest time it was seen (never below 0), most used first. The order of
/// equally used containers is not specified.
pub fn container_distribution(entries: &Vec<MemoryMeta>) -> (r: Vec<ContainerStats>)
    requires
        timed_containers(entries@).len() <= usize::MAX,
    ensures
        stats_describe(r@, timed_containers(entries@)),
        forall|a: int, b: int| 0 <= a < b < r@.len() ==> (#[trigger] r@[a]).count >= (#[trigger] r@[b]).count,
{
    let mut stats: Vec<ContainerStats> = Vec::new();
    let mut i: usize = 0;
    while i < entries.len()
        invariant
            0 <= i <= entries@.len(),
            timed_containers(entries@).len() <= usize::MAX,
            stats_describe(stats@, timed_containers(entries@.take(i as int))),
        decreases entries@.len() - i,
    {
        let m = &entries[i];
        let ghost before = timed_containers(entries@.take(i as int));
        let ghost cur = timed_of(*m);
        proof {
            assert(entries@.take(i + 1).drop_last() =~= entries@.take(i as int));
            assert(timed_containers(entries@.take(i + 1)) == before + cur);
            lemma_timed_prefix_len(entries@, i + 1);
        }
        let mut j: usize = 0;
        while j < m.containers.len()
            invariant
                cur == timed_of(*m),
                0 <= j <= m.containers@.len(),
                before.len() + cur.len() <= usize::MAX,
                stats_describe(stats@, before + cur.take(j as int)),
            decreases m.containers@.len() - j,
        {
            let ghost occ = before + cur.take(j as int);
            let ghost o = cur[j as int];
            assert(o == (m.containers@[j as int]@, m.time_ns));
            assert(before + cur.take(j + 1) =~= occ.push(o));
            let c = &m.containers[j];
            let t = m.time_ns;
            let mut k: usize = 0;
            while k < stats.len() && !same_text(stats[k].name.as_str(), c.as_str())
                invariant
                    0 <= k <= stats@.len(),
                    forall|q: int| 0 <= q < k ==> (#[trigger] stats@[q]).name@ != c@,
                decreases stats@.len() - k,
            {
                k = k + 1;
            }
            let ghost prev = stats@;
            if k < stats.len() {
                let old_count = stats[k].count;
                let old_latest = stats[k].latest_time_ns;
                proof {
                    lemma_occurrence_push(occ, o, c@);
                }
                let updated = ContainerStats {
                    name: stats[k].name.clone(),
                    count: old_count + 1,
                    latest_time_ns: if t > old_latest { t } else { old_latest },
                };
                stats.set(k, updated);
                proof {
                    assert forall|a: int, b: int| 0 <= a < b < stats@.len() implies (#[trigger] stats@[a]).name@ != (#[trigger] stats@[b]).name@ by {
                        assert(stats@[a].name@ == prev[a].name@ && stats@[b].name@ == prev[b].name@);
                    }
                    assert forall|name: Seq<char>| occurs(occ.push(o), name) implies exists|q: int| 0 <= q < stats@.len() && (#[trigger] stats@[q]).name@ == name by {
                        lemma_occurrence_push(occ, o, name);
                        if occurs(occ, name) {
                            let q = choose|q: int| 0 <= q < prev.len() && (#[trigger] prev[q]).name@ == name;
                            assert(stats@[q].name@ == name);
                        } else {
                            assert(stats@[k as int].name@ == name);
                        }
                    }
                    assert forall|name: Seq<char>| (exists|q: int| 0 <= q < stats@.len() && (#[trigger] stats@[q]).name@ == name) implies occurs(occ.push(o), name) by {
                        lemma_occurrence_push(occ, o, name);
                        let q = choose|q: int| 0 <= q < stats@.len() && (#[trigger] stats@[q]).name@ == name;
                        assert(prev[q].name@ == name);
                    }
                    assert forall|q: int| 0 <= q < stats@.len() implies (#[trigger] stats@[q]).count == occurrence_count(occ.push(o), stats@[q].name@)
                        && stats@[q].latest_time_ns == latest_occurrence(occ.push(o), stats@[q].name@) by {
                        lemma_occurrence_push(occ, o, stats@[q].name@);
                        if q != k {
                            assert(stats@[q] == prev[q]);
                        }
                    }
                }
            } else {
                proof {
                    lemma_occurrence_push(occ, o, c@);
                    assert(!occurs(occ, c@));
                    lemma_latest_absent(occ, c@);
                    assert(latest_occurrence(occ, c@) == 0) by {
                        lemma_latest_absent(occ, c@);
                    }
                }
                let fresh = ContainerStats {
                    name: c.clone(),
                    count: 1,
                    latest_time_ns: if t > 0 { t } else { 0 },
                };
                stats.push(fresh);
                proof {
                    assert forall|a: int, b: int| 0 <= a < b < stats@.len() implies (#[trigger] stats@[a]).name@ != (#[trigger] stats@[b]).name@ by {
                        if b < prev.len() {
                            assert(stats@[a] == prev[a] && stats@[b] == prev[b]);
                        } else {
                            assert(stats@[a] == prev[a]);
                        }
                    }
                    assert forall|name: Seq<char>| occurs(occ.push(o), name) implies exists|q: int| 0 <= q < stats@.len() && (#[trigger] stats@[q]).name@ == name by {
                        lemma_occurrence_push(occ, o, name);
                        if occurs(occ, name) {
                            let q = choose|q: int| 0 <= q < prev.len() && (#[trigger] prev[q]).name@ == name;
                            assert(stats@[q].name@ == name);
                        } else {
                            assert(stats@[prev.len() as int].name@ == name);
                        }
                    }
                    assert forall|name: Seq<char>| (exists|q: int| 0 <= q < stats@.len() && (#[trigger] stats@[q]).name@ == name) implies occurs(occ.push(o), name) by {
                        lemma_occurrence_push(occ, o, name);
                        let q = choose|q: int| 0 <= q < stats@.len() && (#[trigger] stats@[q]).name@ == name;
                        if q < prev.len() {
                            assert(prev[q].name@ == name);
                        }
                    }
                    assert forall|q: int| 0 <= q < stats@.len() implies (#[trigger] stats@[q]).count == occurrence_count(occ.push(o), stats@[q].name@)
                        && stats@[q].latest_time_ns == latest_occurrence(occ.push(o), stats@[q].name@) by {
                        lemma_occurrence_push(occ, o, stats@[q].name@);
                        if q < prev.len() {
                            assert(stats@[q] == prev[q]);
                        }
                    }
                }
            }
            j = j + 1;
        }
        assert(cur.take(j as int) =~= cur);
        i = i + 1;
    }
    assert(entries@.take(i as int) =~= entries@);
    // Most used first.
    let mut items: Vec<Ranked> = Vec::new();
    let mut k: usize = 0;
    while k < stats.len()
        invariant
            0 <= k <= stats@.len(),
            items@.len() == k,
            forall|q: int| 0 <= q < k ==> #[trigger] items@[q] == (-(stats@[q].count as int) as i128, 0i128, q as usize),
        decreases stats@.len() - k,
    {
        items.push((-(stats[k].count as i128), 0, k));
        k = k + 1;
    }
    let sorted = sort_ranked(&items);
    assert forall|q: int| 0 <= q < sorted@.len() implies (#[trigger] sorted@[q]).2 < stats@.len()
        && sorted@[q] == items@[sorted@[q].2 as int] by {
        assert(items@.contains(sorted@[q]));
        let w = choose|w: int| 0 <= w < items@.len() && items@[w] == sorted@[q];
    }
    let mut r: Vec<ContainerStats> = Vec::new();
    let mut q: usize = 0;
    while q < sorted.len()
        invariant
            0 <= q <= sorted@.len(),
            sorted@.len() == stats@.len(),
            forall|x: int| 0 <= x < sorted@.len() ==> (#[trigger] sorted@[x]).2 < stats@.len()
                && sorted@[x] == items@[sorted@[x].2 as int],
            r@.len() == q,
            forall|x: int| 0 <= x < q ==> #[trigger] r@[x] == stats@[sorted@[x].2 as int],
        decreases sorted@.len() - q,
    {
        r.push(copy_stats(&stats[sorted[q].2]));
        q = q + 1;
    }
    proof {
        let occ = timed_containers(entries@);
        assert forall|a: int, b: int| 0 <= a < b < r@.len() implies (#[trigger] r@[a]).count >= (#[trigger] r@[b]).count by {
            assert(rank_lt(sorted@[a], sorted@[b]));
        }
        // `r` is a permutation of `stats`.
        assert forall|x: int| 0 <= x < stats@.len() implies r@.contains(#[trigger] stats@[x]) by {
            assert(sorted@.contains(items@[x]));
            let y = choose|y: int| 0 <= y < sorted@.len() && sorted@[y] == items@[x];
            assert(r@[y] == stats@[x]);
        }
        assert forall|a: int, b: int| 0 <= a < b < r@.len() implies (#[trigger] r@[a]).name@ != (#[trigger] r@[b]).name@ by {
            assert(rank_lt(sorted@[a], sorted@[b]));
            assert(sorted@[a].2 != sorted@[b].2);
        }
        assert forall|name: Seq<char>| occurs(occ, name) <==> exists|k: int| 0 <= k < r@.len() && (#[trigger] r@[k]).name@ == name by {
            if occurs(occ, name) {
                let x = choose|x: int| 0 <= x < stats@.len() && (#[trigger] stats@[x]).name@ == name;
                assert(r@.contains(stats@[x]));
                let y = choose|y: int| 0 <= y < r@.len() && r@[y] == stats@[x];
                assert(r@[y].name@ == name);
            }
            if exists|k: int| 0 <= k < r@.len() && (#[trigger] r@[k]).name@ == name {
                let y = choose|y: int| 0 <= y < r@.len() && (#[trigger] r@[y]).name@ == name;
                assert(stats@[sorted@[y].2 as int].name@ == name);
            }
        }
    }
    r
}

proof fn lemma_latest_absent(occ: Seq<(Seq<char>, i64)>, name: Seq<char>)
    requires
        !occurs(occ, name),
    ensures
        latest_occurrence(occ, name) == 0,
        occurrence_count(occ, name) == 0,
    decreases occ.len(),
{
    reveal_with_fuel(Seq::filter, 1);
    if occ.len() > 0 {
        assert(!occurs(occ.drop_last(), name)) by {
            if occurs(occ.drop_last(), name) {
                let k = choose|k: int| 0 <= k < occ.drop_last().len() && (#[trigger] occ.drop_last()[k]).0 == name;
                assert(occ[k] == occ.drop_last()[k]);
            }
        }
        lemma_latest_absent(occ.drop_last(), name);
        assert(occ[occ.len() - 1] == occ.last());
    }
}

proof fn lemma_timed_prefix_len(entries: Seq<MemoryMeta>, i: int)
    requires
        0 <= i <= entries.len(),
    ensures
        timed_containers(entries.take(i)).len() <= timed_containers(entries).len(),
    decreases entries.len() - i,
{
    if i < entries.len() {
        lemma_timed_prefix_len(entries, i + 1);
        assert(entries.take(i + 1).drop_last() =~= entries.take(i));
    } else {
        assert(entries.take(i) =~= entries);
    }
}

// ── Container matching ──
/// The lowercase form of a text, as `str::to_lowercase` computes it (Unicode
/// case mapping, independent of locale).
pub uninterp spec fn lowercase_of(s: Seq<char>) -> Seq<char>;

/// Calls `str::to_lowercase`. Trusted: the result is the Unicode lowercase
/// form of `s`, which depends on `s` alone.
#[verifier::external_body]
fn to_lowercase(s: &str) -> (r: String)
    ensures
        r@ == lowercase_of(s@),
{
    s.to_lowercase()
}

/// The containers known to the store, each once, newest memory first.
pub open spec fn known_containers(entries: Seq<MemoryMeta>) -> Seq<Seq<char>> {
    spec_recent_containers(entries, entries.len() as int)
}

/// The lowercase forms of texts.
pub open spec fn lowercases(s: Seq<Seq<char>>) -> Seq<Seq<char>> {
    s.map_values(|c: Seq<char>| lowercase_of(c))
}

/// The prefix of `target` up to and including its first `:` (`人物:` of `人物:桑安歌`).
pub open spec fn tag_prefix(target: Seq<char>) -> Seq<char> {
    target.take((choose|p: int| is_first_index_of(target, ':', p)) + 1)
}

/// `target` is a tagged name: it holds a `:`.
pub open spec fn is_tagged(target: Seq<char>) -> bool {
    exists|p: int| is_first_index_of(target, ':', p)
}

/// What remains of the lowercase form `lt` of a tagged `target` once as many
/// bytes as its tag prefix holds are cut from its front.
pub open spec fn rest_after_tag(lt: Seq<char>, target: Seq<char>) -> Seq<char> {
    decode_utf8(encode_utf8(lt).subrange(encode_utf8(tag_prefix(target)).len() as int, encode_utf8(lt).len() as int))
}

/// The cut of `rest_after_tag` falls on a character boundary of `lt`
/// (otherwise the cut panics).
pub open spec fn cut_ok(lt: Seq<char>, target: Seq<char>) -> bool {
    is_tagged(target) ==> is_char_boundary(encode_utf8(lt), encode_utf8(tag_prefix(target)).len() as int)
}

/// Fuzzy matching `target` can cut its lowercase form (see `cut_ok`).
pub open spec fn fuzzy_cut_ok(target: Seq<char>) -> bool {
    cut_ok(lowercase_of(target), target)
}

/// `i` is the first position whose lowercase form equals `lt`.
pub open spec fn is_first_caseless(lowered: Seq<Seq<char>>, lt: Seq<char>, i: int) -> bool {
    &&& 0 <= i < lowered.len()
    &&& lowered[i] == lt
    &&& forall|j: int| 0 <= j < i ==> #[trigger] lowered[j] != lt
}

/// Container `c`, of lowercase form `lc`, carries the tag prefix of `target`
/// and `lc` contains the rest of `target`'s lowercase form `lt`.
pub open spec fn tag_match(c: Seq<char>, lc: Seq<char>, target: Seq<char>, lt: Seq<char>) -> bool {
    is_prefix(tag_prefix(target), c) && is_substring(rest_after_tag(lt, target), lc)
}

/// `i` is the first known container that matches `target` by its tag.
pub open spec fn is_first_tag_match(
    known: Seq<Seq<char>>,
    lowered: Seq<Seq<char>>,
    target: Seq<char>,
    lt: Seq<char>,
    i: int,
) -> bool {
    &&& 0 <= i < known.len()
    &&& tag_match(known[i], lowered[i], target, lt)
    &&& forall|j: int| 0 <= j < i ==> !tag_match(#[trigger] known[j], lowered[j], target, lt)
}

/// The known container `target` is normalized to, given the lowercase forms
/// (`lowered[i]` of `known[i]`, `lt` of `target`): the same text if known; else
/// the first one equal ignoring case; else, for a tagged name (`人物:…`), the
/// first one with the same tag whose lowercase form contains the rest of the
/// name; else none.
pub open spec fn fuzzy_pick(known: Seq<Seq<char>>, lowered: Seq<Seq<char>>, target: Seq<char>, lt: Seq<char>) -> Option<Seq<char>> {
    if known.contains(target) {
        Some(target)
    } else if exists|i: int| is_first_caseless(lowered, lt, i) {
        Some(known[choose|i: int| is_first_caseless(lowered, lt, i)])
    } else if !is_tagged(target) {
        None
    } else if exists|i: int| is_first_tag_match(known, lowered, target, lt, i) {
        Some(known[choose|i: int| is_first_tag_match(known, lowered, target, lt, i)])
    } else {
        None
    }
}

/// The known container a new one is normalized to (see `fuzzy_pick`).
pub open spec fn spec_fuzzy_match(entries: Seq<MemoryMeta>, target: Seq<char>) -> Option<Seq<char>> {
    let known = known_containers(entries);
    fuzzy_pick(known, lowercases(known), target, lowercase_of(target))
}

/// The position of the first `:` of `target`, if any.
fn first_colon(target: &str) -> (r: Option<usize>)
    ensures
        match r {
            Some(p) => is_first_index_of(target@, ':', p as int) && tag_prefix(target@) == target@.take(p + 1)
                && p < usize::MAX,
            None => !is_tagged(target@),
        },
{
    let v = chars_of(target);
    let mut p: usize = 0;
    while p < v.len() && v[p] != ':'
        invariant
            v@ == target@,
            0 <= p <= v@.len(),
            forall|j: int| 0 <= j < p ==> v@[j] != ':',
        decreases v@.len() - p,
    {
        p = p + 1;
    }
    if p == v.len() {
        return None;
    }
    assert(is_first_index_of(target@, ':', p as int));
    proof {
        lemma_first_index_unique(target@, ':', p as int);
    }
    Some(p)
}

/// Whether the cut of `rest_after_tag` is on a character boundary of the
/// lowercase form `lowered_target` of `target` (see `cut_ok`).
pub fn cut_is_ok(target: &str, lowered_target: &str) -> (b: bool)
    ensures
        b == cut_ok(lowered_target@, target@),
{
    match first_colon(target) {
        None => true,
        Some(p) => {
            let prefix = target.substring_char(0, p + 1);
            assert(prefix@ =~= tag_prefix(target@));
            let k = prefix.as_bytes().len();
            lowered_target.is_char_boundary(k)
        },
    }
}

/// Whether fuzzy matching `target` can cut its lowercase form (see `fuzzy_cut_ok`).
pub fn fuzzy_cut_is_ok(target: &str) -> (b: bool)
    ensures
        b == fuzzy_cut_ok(target@),
{
    let lt = to_lowercase(target);
    cut_is_ok(target, lt.as_str())
}

/// Normalizes `target` against the known containers, given the lowercase
/// forms of both (see `fuzzy_pick`).
pub fn pick_container(known: &Vec<String>, lowered: &Vec<String>, target: &str, lowered_target: &str) -> (r: Option<String>)
    requires
        lowered@.len() == known@.len(),
        cut_ok(lowered_target@, target@),
    ensures
        match r {
            Some(s) => fuzzy_pick(str_views(known@), str_views(lowered@), target@, lowered_target@) == Some(s@),
            None => fuzzy_pick(str_views(known@), str_views(lowered@), target@, lowered_target@) is None,
        },
{
    let ghost a = str_views(known@);
    let ghost la = str_views(lowered@);
    let ghost t = target@;
    let ghost lt = lowered_target@;
    if contains_text(known, target) {
        return Some(String::from_str(target));
    }
    let mut i: usize = 0;
    while i < lowered.len()
        invariant
            a == str_views(known@),
            la == str_views(lowered@),
            t == target@,
            lt == lowered_target@,
            la.len() == a.len(),
            !a.contains(t),
            0 <= i <= lowered@.len(),
            forall|j: int| 0 <= j < i ==> #[trigger] la[j] != lt,
        decreases lowered@.len() - i,
    {
        assert(la[i as int] == lowered@[i as int]@);
        if same_text(lowered[i].as_str(), lowered_target) {
            assert(is_first_caseless(la, lt, i as int));
            proof {
                let c = choose|c: int| is_first_caseless(la, lt, c);
                if c < i {
                    assert(la[c] != lt);
                } else if c > i {
                    assert(la[i as int] == lt);
                }
            }
            return Some(known[i].clone());
        }
        i = i + 1;
    }
    assert(!exists|c: int| is_first_caseless(la, lt, c));
    let p = match first_colon(target) {
        None => {
            return None;
        },
        Some(p) => p,
    };
    let prefix = target.substring_char(0, p + 1);
    assert(prefix@ =~= tag_prefix(t));
    let k = prefix.as_bytes().len();
    let (_, rest) = lowered_target.split_at(k);
    proof {
        vstd::utf8::encode_utf8_decode_utf8(rest@);
    }
    assert(rest@ == rest_after_tag(lt, t));
    let mut q: usize = 0;
    while q < known.len()
        invariant
            a == str_views(known@),
            la == str_views(lowered@),
            t == target@,
            lt == lowered_target@,
            la.len() == a.len(),
            !a.contains(t),
            !exists|c: int| is_first_caseless(la, lt, c),
            is_tagged(t),
            rest@ == rest_after_tag(lt, t),
            prefix@ == tag_prefix(t),
            0 <= q <= known@.len(),
            forall|j: int| 0 <= j < q ==> !tag_match(#[trigger] a[j], la[j], t, lt),
        decreases known@.len() - q,
    {
        assert(a[q as int] == known@[q as int]@);
        assert(la[q as int] == lowered@[q as int]@);
        if crate::text::has_prefix(known[q].as_str(), prefix) && contains_str(lowered[q].as_str(), rest) {
            assert(tag_match(a[q as int], la[q as int], t, lt));
            proof {
                let w = choose|w: int| is_first_tag_match(a, la, t, lt, w);
                assert(is_first_tag_match(a, la, t, lt, q as int));
                if w < q {
                    assert(!tag_match(a[w], la[w], t, lt));
                } else if w > q {
                    assert(tag_match(a[q as int], la[q as int], t, lt));
                }
            }
            return Some(known[q].clone());
        }
        q = q + 1;
    }
    assert(!exists|w: int| is_first_tag_match(a, la, t, lt, w));
    None
}

/// Normalizes a container name against the known ones (see `spec_fuzzy_match`).
pub fn fuzzy_match_container(entries: &Vec<MemoryMeta>, target: &str) -> (r: Option<String>)
    requires
        fuzzy_cut_ok(target@),
    ensures
        match r {
            Some(s) => spec_fuzzy_match(entries@, target@) == Some(s@),
            None => spec_fuzzy_match(entries@, target@) is None,
        },
{
    let known = recent_containers(entries, entries.len());
    let mut lowered: Vec<String> = Vec::new();
    let mut i: usize = 0;
    while i < known.len()
        invariant
            0 <= i <= known@.len(),
            str_views(lowered@) == lowercases(str_views(known@)).take(i as int),
        decreases known@.len() - i,
    {
        let ghost prev = lowered@;
        lowered.push(to_lowercase(known[i].as_str()));
        assert(str_views(lowered@) =~= lowercases(str_views(known@)).take(i + 1)) by {
            assert(str_views(lowered@) =~= str_views(prev).push(lowercase_of(known@[i as int]@)));
        }
        i = i + 1;
    }
    assert(lowercases(str_views(known@)).take(known@.len() as int) =~= lowercases(str_views(known@)));
    let lt = to_lowercase(target);
    pick_container(&known, &lowered, target, lt.as_str())
}

/// Fuzzy matching for any name: `None` when the lowered name cannot be cut
/// (where matching would panic), else the match (see `fuzzy_match_container`).
pub fn try_fuzzy_match_container(entries: &Vec<MemoryMeta>, target: &str) -> (r: Option<Option<String>>)
    ensures
        r is None <==> !fuzzy_cut_ok(target@),
        r matches Some(m) ==> match m {
            Some(s) => spec_fuzzy_match(entries@, target@) == Some(s@),
            None => spec_fuzzy_match(entries@, target@) is None,
        },
{
    if fuzzy_cut_is_ok(target) {
        Some(fuzzy_match_container(entries, target))
    } else {
        None
    }
}

pub(crate) proof fn lemma_concat_holds(ls: Seq<Seq<Seq<char>>>, i: int, j: int)
    requires
        0 <= i < ls.len(),
        0 <= j < ls[i].len(),
    ensures
        concat_lists(ls).contains(ls[i][j]),
    decreases ls.len(),
{
    let front = concat_lists(ls.drop_last());
    if i == ls.len() - 1 {
        assert((front + ls.last())[front.len() + j] == ls[i][j]);
    } else {
        assert(ls.drop_last()[i] == ls[i]);
        lemma_concat_holds(ls.drop_last(), i, j);
        let k = choose|k: int| 0 <= k < front.len() && front[k] == ls[i][j];
        assert((front + ls.last())[k] == ls[i][j]);
    }
}

/// Names are normalized against the containers of every cached memory,
/// however old: each container of each cached memory is a known container.
pub proof fn lemma_known_containers_hold_all(entries: Seq<MemoryMeta>, i: int, j: int)
    requires
        0 <= i < entries.len(),
        0 <= j < entries[i].containers@.len(),
    ensures
        known_containers(entries).contains(entries[i].containers@[j]@),
{
    let n = entries.len();
    let rev = recent_range(entries, n as int).reverse();
    assert(recent_range(entries, n as int) == entries);
    assert(rev[n - 1 - i] == entries[i]);
    let ls = containers_of(rev);
    assert(ls[n - 1 - i] == str_views(entries[i].containers@));
    assert(ls[n - 1 - i][j] == entries[i].containers@[j]@);
    lemma_concat_holds(ls, n - 1 - i, j);
    lemma_distinct_contains(concat_lists(ls), entries[i].containers@[j]@);
}

proof fn lemma_concat_from(ls: Seq<Seq<Seq<char>>>, x: Seq<char>)
    requires
        concat_lists(ls).contains(x),
    ensures
        exists|i: int, j: int| 0 <= i < ls.len() && 0 <= j < ls[i].len() && #[trigger] ls[i][j] == x,
    decreases ls.len(),
{
    let front = concat_lists(ls.drop_last());
    let whole = front + ls.last();
    let k = choose|k: int| 0 <= k < whole.len() && whole[k] == x;
    if k < front.len() {
        assert(front[k] == x);
        lemma_concat_from(ls.drop_last(), x);
        let (i, j) = choose|i: int, j: int|
            0 <= i < ls.drop_last().len() && 0 <= j < ls.drop_last()[i].len() && #[trigger] ls.drop_last()[i][j] == x;
        assert(ls[i][j] == x);
    } else {
        assert(ls[ls.len() - 1][k - front.len()] == x);
    }
}

/// Every known container is a container of some cached memory.
pub proof fn lemma_known_containers_are_used(entries: Seq<MemoryMeta>, c: Seq<char>)
    requires
        known_containers(entries).contains(c),
    ensures
        exists|i: int, j: int| 0 <= i < entries.len() && 0 <= j < entries[i].containers@.len() && #[trigger] entries[i].containers@[j]@ == c,
{
    let n = entries.len();
    let rev = recent_range(entries, n as int).reverse();
    assert(recent_range(entries, n as int) == entries);
    let ls = containers_of(rev);
    lemma_distinct_contains(concat_lists(ls), c);
    lemma_concat_from(ls, c);
    let (a, b) = choose|a: int, b: int| 0 <= a < ls.len() && 0 <= b < ls[a].len() && #[trigger] ls[a][b] == c;
    let i = n - 1 - a;
    assert(rev[a] == entries[i]);
    assert(ls[a] == str_views(entries[i].containers@));
    assert(entries[i].containers@[b]@ == c);
}

proof fn lemma_first_of(p: spec_fn(int) -> bool, k: int) -> (f: int)
    requires
        0 <= k,
        p(k),
    ensures
        0 <= f <= k,
        p(f),
        forall|j: int| 0 <= j < f ==> !#[trigger] p(j),
    decreases k,
{
    if exists|j: int| 0 <= j < k && #[trigger] p(j) {
        let j = choose|j: int| 0 <= j < k && #[trigger] p(j);
        lemma_first_of(p, j)
    } else {
        k
    }
}

/// Normalization keeps what the store already has: a name used by any cached
/// memory, however old, stays as it is.
pub proof fn lemma_fuzzy_keeps_known_name(entries: Seq<MemoryMeta>, i: int, j: int)
    requires
        0 <= i < entries.len(),
        0 <= j < entries[i].containers@.len(),
    ensures
        spec_fuzzy_match(entries, entries[i].containers@[j]@) == Some(entries[i].containers@[j]@),
{
    lemma_known_containers_hold_all(entries, i, j);
}

/// A name that a cached memory's container equals ignoring case, however old
/// that memory, is normalized to a known container with the same lowercase form.
pub proof fn lemma_fuzzy_finds_caseless_name(entries: Seq<MemoryMeta>, target: Seq<char>, i: int, j: int)
    requires
        0 <= i < entries.len(),
        0 <= j < entries[i].containers@.len(),
        lowercase_of(entries[i].containers@[j]@) == lowercase_of(target),
    ensures
        spec_fuzzy_match(entries, target) matches Some(s) && lowercase_of(s) == lowercase_of(target),
{
    let known = known_containers(entries);
    let lowered = lowercases(known);
    let lt = lowercase_of(target);
    lemma_known_containers_hold_all(entries, i, j);
    if !known.contains(target) {
        let k = choose|k: int| 0 <= k < known.len() && known[k] == entries[i].containers@[j]@;
        assert(lowered[k] == lt);
        let pr = |q: int| 0 <= q < lowered.len() && lowered[q] == lt;
        let f = lemma_first_of(pr, k);
        assert forall|q: int| 0 <= q < f implies #[trigger] lowered[q] != lt by {
            assert(!pr(q));
        }
        assert(is_first_caseless(lowered, lt, f));
        let c = choose|c: int| is_first_caseless(lowered, lt, c);
        assert(lowered[c] == lowercase_of(known[c]));
    }
}

/// A tagged name (`人物:安歌`) for which some cached memory, however old,
/// has a container with the same tag whose lowercase form holds the rest of the
/// name is always normalized to a known container.
pub proof fn lemma_fuzzy_finds_tagged_name(entries: Seq<MemoryMeta>, target: Seq<char>, i: int, j: int)
    requires
        0 <= i < entries.len(),
        0 <= j < entries[i].containers@.len(),
        is_tagged(target),
        is_prefix(tag_prefix(target), entries[i].containers@[j]@),
        is_substring(rest_after_tag(lowercase_of(target), target), lowercase_of(entries[i].containers@[j]@)),
    ensures
        spec_fuzzy_match(entries, target) is Some,
{
    let known = known_containers(entries);
    let lowered = lowercases(known);
    let lt = lowercase_of(target);
    lemma_known_containers_hold_all(entries, i, j);
    if !known.contains(target) && !exists|c: int| is_first_caseless(lowered, lt, c) {
        let k = choose|k: int| 0 <= k < known.len() && known[k] == entries[i].containers@[j]@;
        assert(tag_match(known[k], lowered[k], target, lt));
        let pr = |q: int| 0 <= q < known.len() && tag_match(known[q], lowered[q], target, lt);
        let f = lemma_first_of(pr, k);
        assert forall|q: int| 0 <= q < f implies !tag_match(#[trigger] known[q], lowered[q], target, lt) by {
            assert(!pr(q));
        }
        assert(is_first_tag_match(known, lowered, target, lt, f));
    }
}

/// Normalization never changes a container's tag: the name it gives is the
/// name asked, or equal to it ignoring case, or, for a tagged name, a container
/// that begins with the same tag (the name up to and including its first `:`).
/// A name other than the one asked is a container of some cached memory.
pub proof fn lemma_fuzzy_keeps_tag(entries: Seq<MemoryMeta>, target: Seq<char>)
    ensures
        spec_fuzzy_match(entries, target) matches Some(s) ==> s == target || lowercase_of(s) == lowercase_of(target)
            || exists|p: int| #[trigger] is_first_index_of(target, ':', p) && p < s.len() && s.take(p + 1) == target.take(p + 1),
        spec_fuzzy_match(entries, target) matches Some(s) ==> s == target || exists|i: int, j: int|
            0 <= i < entries.len() && 0 <= j < entries[i].containers@.len() && #[trigger] entries[i].containers@[j]@ == s,
{
    let known = known_containers(entries);
    let lowered = lowercases(known);
    let lt = lowercase_of(target);
    if known.contains(target) {
    } else if exists|i: int| is_first_caseless(lowered, lt, i) {
        let c = choose|i: int| is_first_caseless(lowered, lt, i);
        assert(lowered[c] == lowercase_of(known[c]));
        assert(known.contains(known[c]));
        lemma_known_containers_are_used(entries, known[c]);
    } else if is_tagged(target) && exists|i: int| is_first_tag_match(known, lowered, target, lt, i) {
        let w = choose|i: int| is_first_tag_match(known, lowered, target, lt, i);
        let s = known[w];
        let p = choose|p: int| is_first_index_of(target, ':', p);
        assert(tag_prefix(target) == target.take(p + 1));
        assert(is_prefix(target.take(p + 1), s));
        assert(s.take(p + 1) =~= s.subrange(0, p + 1));
        assert(is_first_index_of(target, ':', p));
        assert(known.contains(s));
        lemma_known_containers_are_used(entries, s);
    }
}

// ── Sense index ──
/// The id list of an impression after adding `id`: unchanged if present, else `id` at the end.
pub open spec fn with_id(ids: Seq<Seq<char>>, id: Seq<char>) -> Seq<Seq<char>> {
    if ids.contains(id) {
        ids
    } else {
        ids.push(id)
    }
}

/// The id list of an impression after removing every occurrence of `id`.
pub open spec fn without_id(ids: Seq<Seq<char>>, id: Seq<char>) -> Seq<Seq<char>> {
    ids.filter(|x: Seq<char>| x != id)
}

/// Adds a memory id to an impression's id list unless it is already there.
/// Returns whether the list changed (and so must be written back).
pub fn add_sense_id(ids: &mut Vec<String>, id: &str) -> (changed: bool)
    ensures
        changed == !str_views(old(ids)@).contains(id@),
        str_views(final(ids)@) == with_id(str_views(old(ids)@), id@),
{
    let mut i: usize = 0;
    while i < ids.len()
        invariant
            ids@ == old(ids)@,
            0 <= i <= ids@.len(),
            forall|k: int| 0 <= k < i ==> #[trigger] ids@[k]@ != id@,
        decreases ids@.len() - i,
    {
        if same_text(ids[i].as_str(), id) {
            assert(str_views(ids@)[i as int] == id@);
            return false;
        }
        i = i + 1;
    }
    assert(!str_views(ids@).contains(id@)) by {
        if str_views(ids@).contains(id@) {
            let k = choose|k: int| 0 <= k < str_views(ids@).len() && str_views(ids@)[k] == id@;
            assert(ids@[k]@ == id@);
        }
    }
    ids.push(String::from_str(id));
    assert(str_views(ids@) =~= str_views(old(ids)@).push(id@));
    true
}

/// Removes every occurrence of a memory id from an impression's id list.
/// Returns whether the list changed.
pub fn remove_sense_id(ids: &mut Vec<String>, id: &str) -> (changed: bool)
    ensures
        str_views(final(ids)@) == without_id(str_views(old(ids)@), id@),
        changed == (final(ids)@.len() != old(ids)@.len()),
        changed == str_views(old(ids)@).contains(id@),
{
    let ghost olds = str_views(ids@);
    let mut kept: Vec<String> = Vec::new();
    let mut i: usize = 0;
    while i < ids.len()
        invariant
            ids@ == old(ids)@,
            olds == str_views(ids@),
            0 <= i <= ids@.len(),
            str_views(kept@) == without_id(olds.take(i as int), id@),
        decreases ids@.len() - i,
    {
        reveal_with_fuel(Seq::filter, 1);
        assert(olds.take(i + 1).drop_last() =~= olds.take(i as int));
        if !same_text(ids[i].as_str(), id) {
            let s = ids[i].clone();
            kept.push(s);
            assert(str_views(kept@) =~= without_id(olds.take(i as int), id@).push(olds[i as int]));
        }
        i = i + 1;
    }
    assert(olds.take(ids@.len() as int) =~= olds);
    proof {
        lemma_without_len(olds, id@);
    }
    let changed = kept.len() != ids.len();
    *ids = kept;
    changed
}

/// Removing an id shortens the list exactly when the id was present.
proof fn lemma_without_len(ids: Seq<Seq<char>>, id: Seq<char>)
    ensures
        without_id(ids, id).len() <= ids.len(),
        (without_id(ids, id).len() != ids.len()) == ids.contains(id),
    decreases ids.len(),
{
    reveal_with_fuel(Seq::filter, 1);
    if ids.len() > 0 {
        let init = ids.drop_last();
        lemma_without_len(init, id);
        assert(ids.drop_last() =~= init);
        if ids.last() == id {
            assert(ids.contains(id)) by {
                assert(ids[ids.len() - 1] == id);
            }
        } else {
            assert(ids.contains(id) == init.contains(id)) by {
                if ids.contains(id) {
                    let k = choose|k: int| 0 <= k < ids.len() && ids[k] == id;
                    assert(init[k] == id);
                }
                if init.contains(id) {
                    let k = choose|k: int| 0 <= k < init.len() && init[k] == id;
                    assert(ids[k] == id);
                }
            }
        }
    }
}

/// Storing the same memory twice leaves an impression's id list as storing it once
/// (and the id is then in the list).
pub proof fn lemma_add_sense_id_idempotent(ids: Seq<Seq<char>>, id: Seq<char>)
    ensures
        with_id(with_id(ids, id), id) == with_id(ids, id),
        with_id(ids, id).contains(id),
{
    if !ids.contains(id) {
        assert(ids.push(id)[ids.len() as int] == id);
    }
}

/// After forgetting a memory, no impression's id list holds its id, every other id
/// stays, and forgetting undoes storing it into a list that did not hold it.
pub proof fn lemma_remove_sense_id_clears(ids: Seq<Seq<char>>, id: Seq<char>)
    ensures
        !without_id(ids, id).contains(id),
        forall|x: Seq<char>| x != id && ids.contains(x) ==> #[trigger] without_id(ids, id).contains(x),
        !ids.contains(id) ==> without_id(with_id(ids, id), id) == without_id(ids, id),
{
    let f = |x: Seq<char>| x != id;
    assert forall|x: Seq<char>| x != id && ids.contains(x) implies #[trigger] without_id(
        ids,
        id,
    ).contains(x) by {
        let k = choose|k: int| 0 <= k < ids.len() && ids[k] == x;
        ids.lemma_filter_contains(f, k);
    }
    if without_id(ids, id).contains(id) {
        broadcast use vstd::seq_lib::group_filter_ensures;

        let k = choose|k: int| 0 <= k < without_id(ids, id).len() && without_id(ids, id)[k] == id;
        assert(f(without_id(ids, id)[k]));
    }
    if !ids.contains(id) {
        reveal_with_fuel(Seq::filter, 1);
        assert(ids.push(id).drop_last() =~= ids);
    }
}

// ── Stored id lists ──
/// The bytes `bincode` writes for a list of ids.
pub uninterp spec fn bincode_of_ids(ids: Seq<Seq<char>>) -> Seq<u8>;

/// The list of ids `bincode` reads from bytes, when they hold one.
pub uninterp spec fn ids_of_bincode(raw: Seq<u8>) -> Option<Seq<Seq<char>>>;

/// Calls `bincode::serialize` on a list of ids. Trusted: it succeeds (with its
/// default options there is no size limit, the output is a `Vec`, and a list
/// of strings has a known length, so no error path of the serializer is
/// reached); the bytes are bincode's encoding of the list, a function of the
/// list alone, and `bincode::deserialize` reads the same list back from them.
#[verifier::external_body]
fn bincode_serialize_ids(ids: &Vec<String>) -> (r: Option<Vec<u8>>)
    ensures
        r is Some,
        r matches Some(b) ==> b@ == bincode_of_ids(str_views(ids@)) && ids_of_bincode(b@) == Some(
            str_views(ids@),
        ),
{
    bincode::serialize(ids).ok()
}

/// Calls `bincode::deserialize` into a list of ids. Trusted: the outcome is
/// bincode's reading of the bytes, a function of the bytes alone.
#[verifier::external_body]
fn bincode_deserialize_ids(raw: &[u8]) -> (r: Option<Vec<String>>)
    ensures
        match r {
            Some(v) => ids_of_bincode(raw@) == Some(str_views(v@)),
            None => ids_of_bincode(raw@) is None,
        },
{
    bincode::deserialize::<Vec<String>>(raw).ok()
}

/// Encodes an impression's id list for the sense index; encoding a list of
/// ids always succeeds. A list written this way reads back unchanged.
pub fn encode_id_list(ids: &Vec<String>) -> (r: Option<Vec<u8>>)
    ensures
        r is Some,
        r matches Some(b) ==> b@ == bincode_of_ids(str_views(ids@)) && spec_stored_id_list(Some(b@))
            == str_views(ids@),
{
    bincode_serialize_ids(ids)
}

/// The id list of an impression as read from the sense index: the stored list,
/// or an empty one when nothing is stored or the bytes hold no list.
pub open spec fn spec_stored_id_list(raw: Option<Seq<u8>>) -> Seq<Seq<char>> {
    match raw {
        Some(b) => match ids_of_bincode(b) {
            Some(v) => v,
            None => Seq::empty(),
        },
        None => Seq::empty(),
    }
}

/// Reads an impression's id list from the sense index (see `spec_stored_id_list`).
pub fn stored_id_list(raw: Option<&[u8]>) -> (r: Vec<String>)
    ensures
        str_views(r@) == spec_stored_id_list(
            match raw {
                Some(b) => Some(b@),
                None => None,
            },
        ),
{
    match raw {
        Some(b) => match bincode_deserialize_ids(b) {
            Some(v) => v,
            None => Vec::new(),
        },
        None => Vec::new(),
    }
}

/// The list to write back for an impression when forgetting `id`: the stored
/// list without `id` when the bytes hold a list that contains it, else `None`
/// (nothing to write).
pub fn id_list_without(raw: &[u8], id: &str) -> (r: Option<Vec<String>>)
    ensures
        match ids_of_bincode(raw@) {
            Some(v) => if v.contains(id@) {
                r matches Some(w) && str_views(w@) == without_id(v, id@)
            } else {
                r is None
            },
            None => r is None,
        },
{
    match bincode_deserialize_ids(raw) {
        Some(v) => {
            let mut w = v;
            if remove_sense_id(&mut w, id) {
                Some(w)
            } else {
                None
            }
        },
        None => None,
    }
}

/// The distinct elements of `s`, each at its first occurrence, in order.
pub open spec fn distinct_in_order(s: Seq<Seq<char>>) -> Seq<Seq<char>>
    decreases s.len(),
{
    if s.len() == 0 {
        s
    } else {
        let d = distinct_in_order(s.drop_last());
        if d.contains(s.last()) {
            d
        } else {
            d.push(s.last())
        }
    }
}

/// The first `n` elements of `s` (all of them when there are fewer).
pub open spec fn first_n<A>(s: Seq<A>, n: int) -> Seq<A> {
    if n < s.len() {
        s.take(n)
    } else {
        s
    }
}

/// The lists one after the other.
pub open spec fn concat_lists(ls: Seq<Seq<Seq<char>>>) -> Seq<Seq<char>>
    decreases ls.len(),
{
    if ls.len() == 0 {
        Seq::empty()
    } else {
        concat_lists(ls.drop_last()) + ls.last()
    }
}

/// The views of a sequence of id lists.
pub open spec fn lists_view(ls: Seq<Vec<String>>) -> Seq<Seq<Seq<char>>> {
    ls.map_values(|l: Vec<String>| str_views(l@))
}

/// `distinct_in_order` of a longer sequence begins with that of its prefix.
pub proof fn lemma_distinct_prefix(s: Seq<Seq<char>>, t: Seq<Seq<char>>)
    ensures
        distinct_in_order(s).len() <= distinct_in_order(s + t).len(),
        distinct_in_order(s + t).take(distinct_in_order(s).len() as int) == distinct_in_order(s),
    decreases t.len(),
{
    if t.len() == 0 {
        assert(s + t =~= s);
        assert(distinct_in_order(s).take(distinct_in_order(s).len() as int) =~= distinct_in_order(s));
    } else {
        let t0 = t.drop_last();
        lemma_distinct_prefix(s, t0);
        assert((s + t).drop_last() =~= s + t0);
        let d0 = distinct_in_order(s + t0);
        let n = distinct_in_order(s).len() as int;
        if !d0.contains((s + t).last()) {
            assert(d0.push((s + t).last()).take(n) =~= d0.take(n));
        }
    }
}

/// Every element of `distinct_in_order(s)` occurs in `s`, and it holds no repeats.
pub proof fn lemma_distinct_contains(s: Seq<Seq<char>>, x: Seq<char>)
    ensures
        distinct_in_order(s).contains(x) == s.contains(x),
    decreases s.len(),
{
    if s.len() > 0 {
        let s0 = s.drop_last();
        lemma_distinct_contains(s0, x);
        if s.contains(x) && x != s.last() {
            let k = choose|k: int| 0 <= k < s.len() && s[k] == x;
            assert(s0[k] == x);
        }
        if s0.contains(x) {
            let k = choose|k: int| 0 <= k < s0.len() && s0[k] == x;
            assert(s[k] == x);
        }
        if x == s.last() {
            assert(s[s.len() - 1] == x);
            let d0 = distinct_in_order(s0);
            if !d0.contains(x) {
                assert(d0.push(x)[d0.len() as int] == x);
            }
        } else {
            let d0 = distinct_in_order(s0);
            if !d0.contains(s.last()) {
                if d0.push(s.last()).contains(x) {
                    let k = choose|k: int| 0 <= k < d0.len() + 1 && d0.push(s.last())[k] == x;
                    assert(d0[k] == x);
                }
                if d0.contains(x) {
                    let k = choose|k: int| 0 <= k < d0.len() && d0[k] == x;
                    assert(d0.push(s.last())[k] == x);
                }
            }
        }
    }
}

/// The first `limit` distinct ids of an impression's id list, in order.
pub fn first_distinct_ids(list: &Vec<String>, limit: usize) -> (r: Vec<String>)
    ensures
        str_views(r@) == first_n(distinct_in_order(str_views(list@)), limit as int),
{
    let ghost l = str_views(list@);
    let mut r: Vec<String> = Vec::new();
    let mut j: usize = 0;
    while j < list.len() && r.len() < limit
        invariant
            l == str_views(list@),
            0 <= j <= list@.len(),
            str_views(r@) == distinct_in_order(l.take(j as int)),
            r@.len() <= limit,
        decreases list@.len() - j,
    {
        assert(l.take(j + 1).drop_last() =~= l.take(j as int));
        assert(l.take(j + 1).last() == list@[j as int]@);
        let ghost prev = r@;
        if !contains_text(&r, list[j].as_str()) {
            r.push(list[j].clone());
            assert(str_views(r@) =~= str_views(prev).push(list@[j as int]@));
        }
        j = j + 1;
    }
    proof {
        lemma_distinct_prefix(l.take(j as int), l.subrange(j as int, l.len() as int));
        assert(l.take(j as int) + l.subrange(j as int, l.len() as int) =~= l);
        if j == list@.len() {
            assert(l.take(j as int) =~= l);
        }
    }
    r
}

/// The ids recorded under the given impressions, each once, in order of the
/// impressions and then of their lists, at most `limit` of them.
pub fn get_ids_by_senses(lists: &Vec<Vec<String>>, limit: usize) -> (r: Vec<String>)
    ensures
        str_views(r@) == first_n(distinct_in_order(concat_lists(lists_view(lists@))), limit as int),
{
    let ghost all = concat_lists(lists_view(lists@));
    let mut r: Vec<String> = Vec::new();
    let mut i: usize = 0;
    while i < lists.len() && r.len() < limit
        invariant
            all == concat_lists(lists_view(lists@)),
            0 <= i <= lists@.len(),
            r@.len() < limit ==> str_views(r@) == distinct_in_order(
                concat_lists(lists_view(lists@).take(i as int)),
            ),
            r@.len() == limit ==> str_views(r@) == first_n(distinct_in_order(all), limit as int),
            r@.len() <= limit,
        decreases lists@.len() - i,
    {
        let ghost before = concat_lists(lists_view(lists@).take(i as int));
        let list = &lists[i];
        let ghost l = str_views(list@);
        let mut j: usize = 0;
        while j < list.len() && r.len() < limit
            invariant
                l == str_views(list@),
                0 <= j <= list@.len(),
                str_views(r@) == distinct_in_order(before + l.take(j as int)),
                r@.len() <= limit,
            decreases list@.len() - j,
        {
            assert((before + l.take(j + 1)).drop_last() =~= before + l.take(j as int));
            assert((before + l.take(j + 1)).last() == list@[j as int]@);
            let ghost prev = r@;
            if !contains_text(&r, list[j].as_str()) {
                r.push(list[j].clone());
                assert(str_views(r@) =~= str_views(prev).push(list@[j as int]@));
            }
            j = j + 1;
        }
        proof {
            let lv = lists_view(lists@);
            assert(lv.take(i + 1).drop_last() =~= lv.take(i as int));
            assert(lv.take(i + 1).last() == l);
            if j == list@.len() {
                assert(l.take(j as int) =~= l);
                if r@.len() == limit {
                    lemma_concat_split_at(lv, i + 1);
                    lemma_distinct_prefix(concat_lists(lv.take(i + 1)), concat_rest(lv, i + 1));
                }
            } else {
                // Stopped at the limit: everything later only extends the distinct sequence.
                lemma_distinct_prefix(before + l.take(j as int), l.subrange(j as int, l.len() as int) + concat_rest(lv, i + 1));
                assert(before + l.take(j as int) + (l.subrange(j as int, l.len() as int) + concat_rest(lv, i + 1)) =~= all) by {
                    lemma_concat_split(lv, i as int);
                }
            }
        }
        i = i + 1;
    }
    proof {
        let lv = lists_view(lists@);
        if r@.len() < limit {
            assert(lv.take(i as int) =~= lv);
        }
    }
    r
}

/// The lists from position `i` on, one after the other.
pub open spec fn concat_rest(ls: Seq<Seq<Seq<char>>>, i: int) -> Seq<Seq<char>>
    decreases ls.len() - i,
{
    if i >= ls.len() {
        Seq::empty()
    } else {
        ls[i] + concat_rest(ls, i + 1)
    }
}

proof fn lemma_concat_split_at(ls: Seq<Seq<Seq<char>>>, i: int)
    requires
        0 <= i <= ls.len(),
    ensures
        concat_lists(ls.take(i)) + concat_rest(ls, i) == concat_lists(ls),
    decreases ls.len() - i,
{
    if i == ls.len() {
        assert(ls.take(i) =~= ls);
        assert(concat_lists(ls.take(i)) + concat_rest(ls, i) =~= concat_lists(ls));
    } else {
        lemma_concat_split_at(ls, i + 1);
        assert(ls.take(i + 1).drop_last() =~= ls.take(i));
        assert(concat_lists(ls.take(i + 1)) == concat_lists(ls.take(i)) + ls[i]);
        assert(concat_lists(ls.take(i)) + concat_rest(ls, i) =~= concat_lists(ls.take(i + 1))
            + concat_rest(ls, i + 1));
    }
}

/// A prefix of the concatenation ends inside list `i`, after its first `j` elements.
pub proof fn lemma_concat_split_prefix(ls: Seq<Seq<Seq<char>>>, i: int, j: int)
    requires
        0 <= i < ls.len(),
        0 <= j <= ls[i].len(),
    ensures
        ({
            let cur = concat_lists(ls.take(i)) + ls[i].take(j);
            cur.len() <= concat_lists(ls).len() && cur + concat_lists(ls).subrange(
                cur.len() as int,
                concat_lists(ls).len() as int,
            ) == concat_lists(ls)
        }),
{
    lemma_concat_split(ls, i);
    let cur = concat_lists(ls.take(i)) + ls[i].take(j);
    let tail = ls[i].subrange(j, ls[i].len() as int) + concat_rest(ls, i + 1);
    assert(cur + tail == concat_lists(ls));
    assert(concat_lists(ls).subrange(cur.len() as int, concat_lists(ls).len() as int) =~= tail);
}

proof fn lemma_concat_split(ls: Seq<Seq<Seq<char>>>, i: int)
    requires
        0 <= i < ls.len(),
    ensures
        forall|j: int|
            0 <= j <= ls[i].len() ==> concat_lists(ls.take(i)) + ls[i].take(j) + (ls[i].subrange(
                j,
                ls[i].len() as int,
            ) + concat_rest(ls, i + 1)) == concat_lists(ls),
{
    lemma_concat_split_at(ls, i);
    assert forall|j: int| 0 <= j <= ls[i].len() implies concat_lists(ls.take(i)) + ls[i].take(j)
        + (ls[i].subrange(j, ls[i].len() as int) + concat_rest(ls, i + 1)) == concat_lists(ls) by {
        assert(concat_rest(ls, i) == ls[i] + concat_rest(ls, i + 1));
        assert(concat_lists(ls.take(i)) + ls[i].take(j) + (ls[i].subrange(j, ls[i].len() as int)
            + concat_rest(ls, i + 1)) =~= concat_lists(ls.take(i)) + concat_rest(ls, i));
    }
}

// ── Chapter clock ──
/// Narrative time of chapter 1 (`第1回`).
pub const CHAPTER_BASE_NS: i64 = 1700000000000000000;

/// One narrative day, in nanoseconds: the distance between consecutive chapters.
pub const DAY_NS: i64 = 86400000000000;

pub open spec fn is_ascii_digit(c: char) -> bool {
    '0' <= c && c <= '9'
}

/// `p` is the position of the first `c` in `s`.
pub open spec fn is_first_index_of(s: Seq<char>, c: char, p: int) -> bool {
    0 <= p < s.len() && s[p] == c && forall|j: int| 0 <= j < p ==> s[j] != c
}

/// The number of ASCII digits at the start of `s`.
pub open spec fn is_digit_run(s: Seq<char>, q: int) -> bool {
    &&& 0 <= q <= s.len()
    &&& forall|j: int| 0 <= j < q ==> is_ascii_digit(#[trigger] s[j])
    &&& (q == s.len() || !is_ascii_digit(s[q]))
}

/// The value of a run of decimal digits.
pub open spec fn decimal_value(d: Seq<char>) -> int
    decreases d.len(),
{
    if d.len() == 0 {
        0
    } else {
        decimal_value(d.drop_last()) * 10 + (d.last() as int - '0' as int)
    }
}

/// The chapter number in a container such as `第148回` or `卷二/第148回_无声张嘴`:
/// the digits right after the first `第`, which must be followed by `回` and fit in an `i64`.
pub open spec fn spec_chapter_number(s: Seq<char>) -> Option<i64> {
    if exists|p: int| is_first_index_of(s, '第', p) {
        let p = choose|p: int| is_first_index_of(s, '第', p);
        let rest = s.skip(p + 1);
        let q = choose|q: int| is_digit_run(rest, q);
        if q == rest.len() || q == 0 || decimal_value(rest.take(q)) > i64::MAX || rest[q] != '回' {
            None
        } else {
            Some(decimal_value(rest.take(q)) as i64)
        }
    } else {
        None
    }
}

proof fn lemma_first_index_unique(s: Seq<char>, c: char, p: int)
    requires
        is_first_index_of(s, c, p),
    ensures
        (choose|k: int| is_first_index_of(s, c, k)) == p,
{
    let k = choose|k: int| is_first_index_of(s, c, k);
    assert(is_first_index_of(s, c, k));
}

proof fn lemma_digit_run_unique(s: Seq<char>, q: int)
    requires
        is_digit_run(s, q),
    ensures
        (choose|k: int| is_digit_run(s, k)) == q,
{
    let k = choose|k: int| is_digit_run(s, k);
    assert(is_digit_run(s, k));
    if k < q {
        assert(is_ascii_digit(s[k]));
    } else if k > q {
        assert(is_ascii_digit(s[q]));
    }
}

proof fn lemma_digit_run_exists(s: Seq<char>)
    ensures
        exists|q: int| is_digit_run(s, q),
    decreases s.len(),
{
    if s.len() == 0 {
        assert(is_digit_run(s, 0));
    } else if !is_ascii_digit(s[0]) {
        assert(is_digit_run(s, 0));
    } else {
        lemma_digit_run_exists(s.drop_first());
        let q = choose|q: int| is_digit_run(s.drop_first(), q);
        assert forall|j: int| 0 <= j < q + 1 implies is_ascii_digit(#[trigger] s[j]) by {
            if j > 0 {
                assert(s[j] == s.drop_first()[j - 1]);
            }
        }
        if q + 1 < s.len() {
            assert(s[q + 1] == s.drop_first()[q]);
        }
        assert(is_digit_run(s, q + 1));
    }
}

proof fn lemma_decimal_value_grows(d: Seq<char>, j: int, k: int)
    requires
        0 <= j <= k <= d.len(),
        forall|i: int| 0 <= i < d.len() ==> is_ascii_digit(#[trigger] d[i]),
    ensures
        0 <= decimal_value(d.take(j)) <= decimal_value(d.take(k)),
    decreases k,
{
    if k > 0 {
        assert(d.take(k).drop_last() =~= d.take(k - 1));
        assert(d.take(k).last() == d[k - 1]);
        lemma_decimal_value_grows(d, 0, k - 1);
        if j < k {
            lemma_decimal_value_grows(d, j, k - 1);
        }
    } else {
        assert(d.take(0) =~= Seq::<char>::empty());
    }
}

/// Parses the chapter number of a container (`第148回` → 148).
pub fn parse_chapter_number(s: &str) -> (n: Option<i64>)
    ensures
        n == spec_chapter_number(s@),
{
    let v = chars_of(s);
    let len = v.len();
    let mut p: usize = 0;
    while p < len && v[p] != '第'
        invariant
            v@ == s@,
            len == v@.len(),
            0 <= p <= len,
            forall|j: int| 0 <= j < p ==> v@[j] != '第',
        decreases len - p,
    {
        p = p + 1;
    }
    if p == len {
        assert(!exists|k: int| is_first_index_of(s@, '第', k));
        return None;
    }
    assert(is_first_index_of(s@, '第', p as int));
    proof {
        lemma_first_index_unique(s@, '第', p as int);
    }
    assert(exists|k: int| is_first_index_of(s@, '第', k));
    let ghost rest = s@.skip(p + 1);
    let start = p + 1;
    let mut q: usize = start;
    let mut value: i64 = 0;
    while q < len && '0' <= v[q] && v[q] <= '9'
        invariant
            v@ == s@,
            len == v@.len(),
            rest == s@.skip(start as int),
            exists|k: int| is_first_index_of(s@, '第', k),
            (choose|k: int| is_first_index_of(s@, '第', k)) == start - 1,
            start <= q <= len,
            forall|j: int| start <= j < q ==> is_ascii_digit(#[trigger] v@[j]),
            value as int == decimal_value(rest.take(q - start)),
            value >= 0,
        decreases len - q,
    {
        let d = (v[q] as u32 - '0' as u32) as i64;
        assert(rest[q - start] == v@[q as int]);
        assert(d == rest[q - start] as int - '0' as int);
        assert forall|i: int| 0 <= i <= q - start implies is_ascii_digit(#[trigger] rest[i]) by {
            assert(rest[i] == v@[start + i]);
        }
        assert(rest.take(q - start + 1).drop_last() =~= rest.take(q - start));
        assert(rest.take(q - start + 1).last() == v@[q as int]);
        match value.checked_mul(10) {
            Some(m) => match m.checked_add(d) {
                Some(nv) => {
                    value = nv;
                },
                None => {
                    proof {
                        lemma_overflow_is_final(rest, (q - start) as int);
                        lemma_digit_run_exists(rest);
                    }
                    return None;
                },
            },
            None => {
                proof {
                    lemma_overflow_is_final(rest, (q - start) as int);
                    lemma_digit_run_exists(rest);
                }
                return None;
            },
        }
        q = q + 1;
    }
    let qq = q - start;
    assert(is_digit_run(rest, qq as int)) by {
        assert forall|j: int| 0 <= j < qq implies is_ascii_digit(#[trigger] rest[j]) by {
            assert(v@[start + j] == rest[j]);
        }
    }
    proof {
        lemma_digit_run_unique(rest, qq as int);
    }
    assert(rest.len() == len - start);
    if q == len || qq == 0 || v[q] != '回' {
        return None;
    }
    assert(rest[qq as int] == v@[q as int]);
    assert(exists|k: int| is_digit_run(rest, k));
    Some(value)
}

/// Once a prefix of the digit run exceeds `i64::MAX`, the whole run does.
proof fn lemma_overflow_is_final(rest: Seq<char>, j: int)
    requires
        0 <= j < rest.len(),
        forall|i: int| 0 <= i <= j ==> is_ascii_digit(#[trigger] rest[i]),
        decimal_value(rest.take(j)) * 10 + (rest[j] as int - '0' as int) > i64::MAX,
    ensures
        forall|q: int| is_digit_run(rest, q) ==> decimal_value(rest.take(q)) > i64::MAX,
{
    assert(rest.take(j + 1).drop_last() =~= rest.take(j));
    assert forall|q: int| is_digit_run(rest, q) implies decimal_value(rest.take(q)) > i64::MAX by {
        if q <= j {
            assert(is_ascii_digit(rest[q]));
        }
        let d = rest.take(q);
        assert forall|i: int| 0 <= i < d.len() implies is_ascii_digit(#[trigger] d[i]) by {
            assert(d[i] == rest[i]);
        }
        assert(d.take(j + 1) =~= rest.take(j + 1));
        lemma_decimal_value_grows(d, j + 1, q);
        assert(d.take(q) =~= d);
    }
}

/// A whole run of decimal digits that fits in an `i64`, as its value.
pub open spec fn spec_whole_number(d: Seq<char>) -> Option<i64> {
    if d.len() > 0 && (forall|i: int| 0 <= i < d.len() ==> is_ascii_digit(#[trigger] d[i]))
        && decimal_value(d) <= i64::MAX {
        Some(decimal_value(d) as i64)
    } else {
        None
    }
}

/// The number of a `sprint-N` or `day-N` tag: the whole text is the tag word,
/// a hyphen and the digits of `N`.
pub open spec fn spec_tag_number(s: Seq<char>) -> Option<i64> {
    if is_prefix("sprint-"@, s) {
        spec_whole_number(s.skip(7))
    } else if is_prefix("day-"@, s) {
        spec_whole_number(s.skip(4))
    } else {
        None
    }
}

/// The narrative-time number a container names: its chapter (`第N回`), else
/// its sprint or day (`sprint-N`, `day-N`).
pub open spec fn spec_time_number(s: Seq<char>) -> Option<i64> {
    match spec_chapter_number(s) {
        Some(n) => Some(n),
        None => spec_tag_number(s),
    }
}

/// Parses the digits of `v` from `start` to the end as one number (see `spec_whole_number`).
fn parse_whole_number(v: &Vec<char>, start: usize) -> (r: Option<i64>)
    requires
        start <= v@.len(),
    ensures
        r == spec_whole_number(v@.skip(start as int)),
{
    let ghost d = v@.skip(start as int);
    let len = v.len();
    if start == len {
        return None;
    }
    let mut q: usize = start;
    let mut value: i64 = 0;
    while q < len
        invariant
            d == v@.skip(start as int),
            len == v@.len(),
            start < len,
            start <= q <= len,
            forall|j: int| 0 <= j < q - start ==> is_ascii_digit(#[trigger] d[j]),
            value as int == decimal_value(d.take(q - start)),
            value >= 0,
        decreases len - q,
    {
        assert(d[q - start] == v@[q as int]);
        if !('0' <= v[q] && v[q] <= '9') {
            assert(!is_ascii_digit(d[q - start]));
            return None;
        }
        let dg = (v[q] as u32 - '0' as u32) as i64;
        assert(d.take(q - start + 1).drop_last() =~= d.take(q - start));
        assert(d.take(q - start + 1).last() == v@[q as int]);
        let next = match value.checked_mul(10) {
            Some(m) => m.checked_add(dg),
            None => None,
        };
        match next {
            Some(nv) => {
                value = nv;
            },
            None => {
                proof {
                    if forall|i: int| 0 <= i < d.len() ==> is_ascii_digit(#[trigger] d[i]) {
                        lemma_decimal_value_grows(d, q - start + 1, d.len() as int);
                        assert(d.take(d.len() as int) =~= d);
                    }
                }
                return None;
            },
        }
        q = q + 1;
    }
    assert(d.take(q - start) =~= d);
    Some(value)
}

/// Parses a `sprint-N` or `day-N` tag (see `spec_tag_number`).
pub fn parse_tag_number(s: &str) -> (n: Option<i64>)
    ensures
        n == spec_tag_number(s@),
{
    proof {
        reveal_strlit("sprint-");
        reveal_strlit("day-");
    }
    let v = chars_of(s);
    if has_prefix(s, "sprint-") {
        parse_whole_number(&v, 7)
    } else if has_prefix(s, "day-") {
        parse_whole_number(&v, 4)
    } else {
        None
    }
}

/// Parses the narrative-time number of a container (see `spec_time_number`).
pub fn parse_time_number(s: &str) -> (n: Option<i64>)
    ensures
        n == spec_time_number(s@),
{
    match parse_chapter_number(s) {
        Some(n) => Some(n),
        None => parse_tag_number(s),
    }
}

/// The position of the first container that names a narrative-time number.
pub open spec fn is_first_time_container(cs: Seq<Seq<char>>, i: int) -> bool {
    &&& 0 <= i < cs.len()
    &&& spec_time_number(cs[i]) is Some
    &&& forall|j: int| 0 <= j < i ==> spec_time_number(#[trigger] cs[j]) is None
}

/// The narrative-time number of the first container that names one.
pub open spec fn spec_first_time_number(cs: Seq<Seq<char>>) -> Option<i64> {
    if exists|i: int| is_first_time_container(cs, i) {
        spec_time_number(cs[choose|i: int| is_first_time_container(cs, i)])
    } else {
        None
    }
}

/// The narrative time of number `n` (chapter, sprint or day): one narrative
/// day per step after number 1.
pub open spec fn chapter_time_ns(n: int) -> int {
    CHAPTER_BASE_NS + (n - 1) * DAY_NS
}

/// The narrative-time number (chapter, sprint or day) named by the first
/// container that names one.
pub fn first_time_number(containers: &Vec<String>) -> (n: Option<i64>)
    ensures
        n == spec_first_time_number(str_views(containers@)),
{
    let ghost cs = str_views(containers@);
    let mut i: usize = 0;
    while i < containers.len()
        invariant
            cs == str_views(containers@),
            0 <= i <= containers@.len(),
            forall|j: int| 0 <= j < i ==> spec_time_number(#[trigger] cs[j]) is None,
        decreases containers@.len() - i,
    {
        let r = parse_time_number(containers[i].as_str());
        assert(cs[i as int] == containers@[i as int]@);
        if r.is_some() {
            assert(is_first_time_container(cs, i as int));
            let ghost k = choose|k: int| is_first_time_container(cs, k);
            assert(k == i) by {
                if k < i {
                    assert(spec_time_number(cs[k]) is None);
                } else if k > i {
                    assert(spec_time_number(cs[i as int]) is None);
                }
            }
            return r;
        }
        i = i + 1;
    }
    assert(!exists|k: int| is_first_time_container(cs, k));
    None
}

/// Derives a memory's narrative time from its containers: the first container
/// naming a chapter, sprint or day `n` (`第n回`, `sprint-n`, `day-n`) gives
/// `CHAPTER_BASE_NS + (n - 1) * DAY_NS`.
/// The time must fit in an `i64`.
pub fn derive_time_ns_from_containers(containers: &Vec<String>) -> (t: Option<i64>)
    requires
        spec_first_time_number(str_views(containers@)) matches Some(n) ==> i64::MIN <= chapter_time_ns(
            n as int,
        ) <= i64::MAX,
    ensures
        t == match spec_first_time_number(str_views(containers@)) {
            Some(n) => Some(chapter_time_ns(n as int) as i64),
            None => None::<i64>,
        },
{
    match first_time_number(containers) {
        Some(n) => {
            let n128 = n as i128;
            let t = CHAPTER_BASE_NS as i128 + (n128 - 1) * DAY_NS as i128;
            Some(t as i64)
        },
        None => None,
    }
}

/// Chapters keep their order on the narrative clock: a later chapter is later in time.
pub proof fn lemma_chapter_time_order(a: int, b: int)
    ensures
        a < b <==> chapter_time_ns(a) < chapter_time_ns(b),
        chapter_time_ns(b) - chapter_time_ns(a) == (b - a) * DAY_NS,
{
    assert((b - 1) * DAY_NS - (a - 1) * DAY_NS == (b - a) * DAY_NS) by (nonlinear_arith);
    assert(a < b ==> (b - a) * DAY_NS > 0) by (nonlinear_arith);
    assert(a >= b ==> (b - a) * DAY_NS <= 0) by (nonlinear_arith);
}

// ── Recall windows ──
/// The ids of `list` that are not among `drop`, in order.
pub open spec fn without_any(list: Seq<Seq<char>>, drop: Seq<Seq<char>>) -> Seq<Seq<char>> {
    list.filter(|id: Seq<char>| !drop.contains(id))
}

/// The memories a recall window holds, by id: the seeds that were found,
/// then the ids met in the found seeds' time windows (in order, each once,
/// seeds left out) until there are `limit` in all.
pub open spec fn spec_window_ids(
    found: Seq<Seq<char>>,
    seeds: Seq<Seq<char>>,
    windows: Seq<Seq<Seq<char>>>,
    limit: int,
) -> Seq<Seq<char>> {
    if found.len() >= limit {
        found
    } else {
        found + first_n(
            distinct_in_order(concat_lists(windows.map_values(|w: Seq<Seq<char>>| without_any(w, seeds)))),
            limit - found.len(),
        )
    }
}

/// The ids of `list` that are not among `drop` (see `without_any`).
fn without_texts(list: &Vec<String>, drop: &Vec<String>) -> (r: Vec<String>)
    ensures
        str_views(r@) == without_any(str_views(list@), str_views(drop@)),
{
    let ghost l = str_views(list@);
    let ghost d = str_views(drop@);
    let ghost f = |id: Seq<char>| !d.contains(id);
    let mut r: Vec<String> = Vec::new();
    let mut i: usize = 0;
    while i < list.len()
        invariant
            l == str_views(list@),
            d == str_views(drop@),
            f == (|id: Seq<char>| !d.contains(id)),
            0 <= i <= list@.len(),
            str_views(r@) == l.take(i as int).filter(f),
        decreases list@.len() - i,
    {
        let ghost prev = r@;
        proof {
            assert(l.take(i + 1) =~= l.take(i as int) + seq![l[i as int]]);
            Seq::filter_distributes_over_add(l.take(i as int), seq![l[i as int]], f);
        }
        assert(l[i as int] == list@[i as int]@);
        if !contains_text(drop, list[i].as_str()) {
            r.push(list[i].clone());
            assert(seq![l[i as int]].filter(f) =~= seq![l[i as int]]) by {
                reveal_with_fuel(Seq::filter, 2);
            }
            assert(str_views(r@) =~= str_views(prev) + seq![l[i as int]]);
        } else {
            assert(seq![l[i as int]].filter(f) =~= Seq::<Seq<char>>::empty()) by {
                reveal_with_fuel(Seq::filter, 2);
            }
        }
        i = i + 1;
    }
    assert(l.take(list@.len() as int) =~= l);
    r
}

/// The ids a recall window holds (see `spec_window_ids`): `found` are the
/// seeds found in the store, `seeds` all the seeds asked for, and
/// `windows[k]` the ids of the memories found in the time window of `found[k]`.
pub fn window_ids(found: &Vec<String>, seeds: &Vec<String>, windows: &Vec<Vec<String>>, limit: usize) -> (r: Vec<String>)
    ensures
        str_views(r@) == spec_window_ids(str_views(found@), str_views(seeds@), lists_view(windows@), limit as int),
{
    let mut r = found.clone();
    assert(str_views(r@) =~= str_views(found@));
    if found.len() >= limit {
        return r;
    }
    let ghost ws = lists_view(windows@);
    let ghost sv = str_views(seeds@);
    let mut kept: Vec<Vec<String>> = Vec::new();
    let mut k: usize = 0;
    while k < windows.len()
        invariant
            ws == lists_view(windows@),
            sv == str_views(seeds@),
            0 <= k <= windows@.len(),
            lists_view(kept@) == ws.map_values(|w: Seq<Seq<char>>| without_any(w, sv)).take(k as int),
        decreases windows@.len() - k,
    {
        let w = without_texts(&windows[k], seeds);
        let ghost prev = kept@;
        kept.push(w);
        assert(lists_view(kept@) =~= lists_view(prev).push(without_any(ws[k as int], sv)));
        k = k + 1;
        assert(lists_view(kept@) =~= ws.map_values(|w: Seq<Seq<char>>| without_any(w, sv)).take(k as int));
    }
    assert(ws.map_values(|w: Seq<Seq<char>>| without_any(w, sv)).take(windows@.len() as int)
        =~= ws.map_values(|w: Seq<Seq<char>>| without_any(w, sv)));
    let mut extra = get_ids_by_senses(&kept, limit - found.len());
    let ghost (rv, ev) = (r@, extra@);
    r.append(&mut extra);
    assert(str_views(r@) =~= str_views(rv) + str_views(ev)) by {
        assert(r@ =~= rv + ev);
    }
    r
}

} // verus!
