//! The three recall layers.
//!
//! Constraint recall returns the world rules (high floors, best first);
//! sensory recall returns memories that share sense impressions; narrative
//! recall gathers memories around the narrative anchor, filtered by persons,
//! places and objects. Results are positions in the store's cache.
use crate::model::{
    spec_is_constraint, str_views, wall_clock_ns, ConstraintRecallRequest, MemoryMeta,
    NarrativeRecallRequest, SensoryRecallRequest,
};
use crate::sensory::{is_sensory_order, sensory_candidates, sensory_recall};
use crate::store::{is_latest_among, latest_time_of, lists_view, DAY_NS};
use crate::text::{concat, contains_str, contains_text, has_prefix, is_prefix, is_substring};
use crate::rank::{distinct_positions, rank_lt, rank_sorted, sort_ranked, Ranked};
use vstd::prelude::*;

verus! {

// ── Constraint layer ──
/// Entry `m` is returned by constraint recall with lowest floor key `min_floor_key`.
pub open spec fn constraint_selected(m: MemoryMeta, min_floor_key: i64) -> bool {
    spec_is_constraint(m) && m.floor_key >= min_floor_key
}

/// In constraint recall, the memory at `a` comes before the one at `b`:
/// higher floor first, and on equal floors the earlier-stored first.
pub open spec fn floor_before(entries: Seq<MemoryMeta>, a: int, b: int) -> bool {
    entries[a].floor_key > entries[b].floor_key || (entries[a].floor_key == entries[b].floor_key
        && a < b)
}

/// Constraint-layer recall: the positions of the constraints whose floor is at
/// least `req.min_floor_key`, highest floor first (stable), at most `req.top_k`.
pub fn recall_constraints(entries: &Vec<MemoryMeta>, req: &ConstraintRecallRequest) -> (r: Vec<
    usize,
>)
    ensures
        r@.len() <= req.top_k,
        forall|k: int|
            0 <= k < r@.len() ==> #[trigger] r@[k] < entries@.len() && constraint_selected(
                entries@[r@[k] as int],
                req.min_floor_key,
            ),
        forall|a: int, b: int|
            0 <= a < b < r@.len() ==> floor_before(
                entries@,
                #[trigger] r@[a] as int,
                #[trigger] r@[b] as int,
            ),
        forall|p: int|
            0 <= p < entries@.len() && constraint_selected(entries@[p], req.min_floor_key)
                && !r@.contains(p as usize) ==> r@.len() == req.top_k && forall|k: int|
                0 <= k < r@.len() ==> floor_before(entries@, #[trigger] r@[k] as int, p),
{
    let mut cand: Vec<Ranked> = Vec::new();
    let mut i: usize = 0;
    while i < entries.len()
        invariant
            0 <= i <= entries@.len(),
            forall|k: int|
                0 <= k < cand@.len() ==> {
                    let c = #[trigger] cand@[k];
                    &&& c.2 < i
                    &&& c.0 == -(entries@[c.2 as int].floor_key as int)
                    &&& c.1 == 0
                    &&& constraint_selected(entries@[c.2 as int], req.min_floor_key)
                },
            forall|a: int, b: int| 0 <= a < b < cand@.len() ==> (#[trigger] cand@[a]).2 < (
            #[trigger] cand@[b]).2,
            forall|p: int|
                0 <= p < i && constraint_selected(entries@[p], req.min_floor_key) ==> exists|
                    k: int,
                | 0 <= k < cand@.len() && (#[trigger] cand@[k]).2 == p,
        decreases entries@.len() - i,
    {
        let ghost prev = cand@;
        if entries[i].is_constraint() && entries[i].floor_key >= req.min_floor_key {
            let c: Ranked = (-(entries[i].floor_key as i128), 0, i);
            cand.push(c);
            assert(cand@[cand@.len() - 1] == c);
        }
        assert forall|p: int|
            0 <= p < i + 1 && constraint_selected(entries@[p], req.min_floor_key) implies exists|
                k: int,
            | 0 <= k < cand@.len() && (#[trigger] cand@[k]).2 == p by {
            if p < i {
                let k = choose|k: int| 0 <= k < prev.len() && (#[trigger] prev[k]).2 == p;
                assert(cand@[k] == prev[k]);
            } else {
                assert(cand@[cand@.len() - 1].2 == p);
            }
        }
        i = i + 1;
    }
    let sorted = sort_ranked(&cand);
    let mut r: Vec<usize> = Vec::new();
    let mut k: usize = 0;
    while k < sorted.len() && k < req.top_k
        invariant
            0 <= k <= sorted@.len(),
            k <= req.top_k,
            r@.len() == k,
            forall|m: int| 0 <= m < k ==> #[trigger] r@[m] == sorted@[m].2,
        decreases sorted@.len() - k,
    {
        r.push(sorted[k].2);
        k = k + 1;
    }
    proof {
        assert forall|m: int| 0 <= m < sorted@.len() implies {
            let c = #[trigger] sorted@[m];
            &&& c.2 < entries@.len()
            &&& c.0 == -(entries@[c.2 as int].floor_key as int)
            &&& c.1 == 0
            &&& constraint_selected(entries@[c.2 as int], req.min_floor_key)
        } by {
            assert(cand@.contains(sorted@[m]));
        }
        assert forall|a: int, b: int| 0 <= a < b < r@.len() implies floor_before(
            entries@,
            #[trigger] r@[a] as int,
            #[trigger] r@[b] as int,
        ) by {
            assert(rank_lt(sorted@[a], sorted@[b]));
        }
        assert forall|p: int|
            0 <= p < entries@.len() && constraint_selected(entries@[p], req.min_floor_key)
                && !r@.contains(p as usize) implies r@.len() == req.top_k && forall|k: int|
            0 <= k < r@.len() ==> floor_before(entries@, #[trigger] r@[k] as int, p) by {
            let kc = choose|kc: int| 0 <= kc < cand@.len() && (#[trigger] cand@[kc]).2 == p;
            assert(sorted@.contains(cand@[kc]));
            let ms = choose|ms: int| 0 <= ms < sorted@.len() && sorted@[ms] == cand@[kc];
            if ms < r@.len() {
                assert(r@[ms] == p as usize);
            }
            assert forall|k: int| 0 <= k < r@.len() implies floor_before(
                entries@,
                #[trigger] r@[k] as int,
                p,
            ) by {
                assert(rank_lt(sorted@[k], sorted@[ms]));
            }
        }
    }
    r
}

// ── Sensory layer ──
/// Sensory-triggered recall: nothing when no impression is asked; otherwise the
/// best-ranked memories sharing the impressions (see `sensory_recall`).
/// `id_lists[i]` is the sense index's list for `req.senses[i]`.
pub fn recall_sensory(entries: &Vec<MemoryMeta>, req: &SensoryRecallRequest, id_lists: &Vec<Vec<String>>) -> (r: Vec<usize>)
    ensures
        req.senses@.len() == 0 ==> r@.len() == 0,
        req.senses@.len() > 0 ==> ({
            let cands = sensory_candidates(entries@, lists_view(id_lists@), req.narrative_span_days);
            exists|order: Seq<int>|
                is_sensory_order(entries@, cands, str_views(req.senses@), latest_time_of(entries@), req.top_k as int, order)
                    && r@.len() == order.len() && forall|k: int| 0 <= k < order.len() ==> #[trigger] r@[k] == cands[order[k]]
        }),
{
    if req.senses.len() == 0 {
        return Vec::new();
    }
    sensory_recall(entries, &req.senses, id_lists, req.top_k, req.narrative_span_days)
}

// ── High-energy recall ──
/// The positions of the memories whose energy is above `min_energy_key`, in
/// cache order, at most `limit` of them.
pub fn energy_range(entries: &Vec<MemoryMeta>, min_energy_key: i64, limit: usize) -> (r: Vec<usize>)
    ensures
        r@.len() <= limit,
        forall|a: int, b: int| 0 <= a < b < r@.len() ==> #[trigger] r@[a] < #[trigger] r@[b],
        forall|k: int| 0 <= k < r@.len() ==> #[trigger] r@[k] < entries@.len() && entries@[r@[k] as int].energy_key > min_energy_key,
        forall|p: int| 0 <= p < entries@.len() && entries@[p].energy_key > min_energy_key && !r@.contains(p as usize)
            ==> r@.len() == limit && forall|k: int| 0 <= k < r@.len() ==> #[trigger] r@[k] < p,
{
    let mut r: Vec<usize> = Vec::new();
    let mut i: usize = 0;
    while i < entries.len() && r.len() < limit
        invariant
            0 <= i <= entries@.len(),
            r@.len() <= limit,
            forall|a: int, b: int| 0 <= a < b < r@.len() ==> #[trigger] r@[a] < #[trigger] r@[b],
            forall|k: int| 0 <= k < r@.len() ==> #[trigger] r@[k] < i && entries@[r@[k] as int].energy_key > min_energy_key,
            forall|p: int| 0 <= p < i && entries@[p].energy_key > min_energy_key ==> r@.contains(p as usize),
        decreases entries@.len() - i,
    {
        let ghost prev = r@;
        if entries[i].energy_key > min_energy_key {
            r.push(i);
        }
        assert forall|p: int| 0 <= p < i + 1 && entries@[p].energy_key > min_energy_key implies r@.contains(p as usize) by {
            if p < i {
                let k = choose|k: int| 0 <= k < prev.len() && prev[k] == p as usize;
                assert(r@[k] == p as usize);
            } else {
                assert(r@[r@.len() - 1] == p as usize);
            }
        }
        i = i + 1;
    }
    r
}

// ── Narrative anchor ──
/// The memory has a container in common with `cs`.
pub open spec fn shares_container(m: MemoryMeta, cs: Seq<Seq<char>>) -> bool {
    exists|j: int| 0 <= j < m.containers@.len() && cs.contains(#[trigger] m.containers@[j]@)
}

/// The narrative anchor ("now" of the story) for `containers`: the latest time
/// among memories sharing a container with them, or, when none does, the
/// latest time of all memories.
pub open spec fn is_narrative_anchor(entries: Seq<MemoryMeta>, cs: Seq<Seq<char>>, t: i64) -> bool {
    if exists|i: int| 0 <= i < entries.len() && shares_container(#[trigger] entries[i], cs) {
        is_latest_among(entries, |m: MemoryMeta| shares_container(m, cs), t)
    } else {
        is_latest_among(entries, |m: MemoryMeta| true, t)
    }
}

/// Some container of `cs` is one of `tags`.
pub open spec fn shares_any(cs: Seq<Seq<char>>, tags: Seq<Seq<char>>) -> bool {
    exists|j: int| 0 <= j < cs.len() && tags.contains(#[trigger] cs[j])
}

/// Whether one of `containers` is one of `tags` (the spatial dimension's test).
pub fn shares_any_container(containers: &Vec<String>, tags: &Vec<String>) -> (b: bool)
    ensures
        b == shares_any(str_views(containers@), str_views(tags@)),
{
    let ghost cs = str_views(containers@);
    let mut j: usize = 0;
    while j < containers.len()
        invariant
            cs == str_views(containers@),
            0 <= j <= containers@.len(),
            forall|k: int| 0 <= k < j ==> !str_views(tags@).contains(#[trigger] cs[k]),
        decreases containers@.len() - j,
    {
        if contains_text(tags, containers[j].as_str()) {
            assert(cs[j as int] == containers@[j as int]@);
            return true;
        }
        j = j + 1;
    }
    false
}

fn shares_container_exec(m: &MemoryMeta, containers: &Vec<String>) -> (b: bool)
    ensures
        b == shares_container(*m, str_views(containers@)),
{
    let b = shares_any_container(&m.containers, containers);
    assert(b == shares_container(*m, str_views(containers@))) by {
        if b {
            let j = choose|j: int| 0 <= j < str_views(m.containers@).len() && str_views(containers@).contains(#[trigger] str_views(m.containers@)[j]);
            assert(str_views(m.containers@)[j] == m.containers@[j]@);
        }
        if shares_container(*m, str_views(containers@)) {
            let j = choose|j: int| 0 <= j < m.containers@.len() && str_views(containers@).contains(#[trigger] m.containers@[j]@);
            assert(str_views(m.containers@)[j] == m.containers@[j]@);
        }
    }
    b
}

/// Derives the narrative anchor from the data rather than the wall clock: the
/// latest time among memories sharing a container with `containers`, else the
/// latest time of all memories; the wall clock only when the store is empty.
pub fn derive_narrative_anchor(entries: &Vec<MemoryMeta>, containers: &Vec<String>) -> (t: i64)
    ensures
        entries@.len() > 0 ==> is_narrative_anchor(entries@, str_views(containers@), t),
{
    let fallback = if entries.len() == 0 {
        wall_clock_ns()
    } else {
        0
    };
    narrative_anchor_or(entries, containers, fallback)
}

/// The narrative anchor (see `derive_narrative_anchor`), with `fallback` as
/// the anchor of an empty store.
pub fn narrative_anchor_or(entries: &Vec<MemoryMeta>, containers: &Vec<String>, fallback: i64) -> (t: i64)
    ensures
        entries@.len() > 0 ==> is_narrative_anchor(entries@, str_views(containers@), t),
        entries@.len() == 0 ==> t == fallback,
{
    let ghost cs = str_views(containers@);
    let mut any_match = false;
    let mut best_match: i64 = 0;
    let mut best_all: i64 = 0;
    let mut i: usize = 0;
    while i < entries.len()
        invariant
            cs == str_views(containers@),
            0 <= i <= entries@.len(),
            any_match == exists|k: int| 0 <= k < i && shares_container(#[trigger] entries@[k], cs),
            any_match ==> exists|k: int|
                0 <= k < i && shares_container(#[trigger] entries@[k], cs) && entries@[k].time_ns
                    == best_match,
            forall|k: int|
                0 <= k < i && shares_container(#[trigger] entries@[k], cs) ==> entries@[k].time_ns
                    <= best_match,
            i > 0 ==> exists|k: int| 0 <= k < i && #[trigger] entries@[k].time_ns == best_all,
            forall|k: int| 0 <= k < i ==> #[trigger] entries@[k].time_ns <= best_all,
        decreases entries@.len() - i,
    {
        let t = entries[i].time_ns;
        if i == 0 || t > best_all {
            best_all = t;
        }
        if shares_container_exec(&entries[i], containers) {
            if !any_match || t > best_match {
                best_match = t;
            }
            any_match = true;
        }
        i = i + 1;
    }
    if any_match {
        best_match
    } else if entries.len() > 0 {
        best_all
    } else {
        fallback
    }
}

/// Memory `m` holds one of the containers `cs` (one is enough).
pub open spec fn holds_one_of(m: MemoryMeta, cs: Seq<Seq<char>>) -> bool {
    exists|j: int| 0 <= j < m.containers@.len() && cs.contains(#[trigger] m.containers@[j]@)
}

/// The narrative anchor is the story's "now" for the asked containers: it is
/// no earlier than any memory holding at least one of them, and it is the time
/// of one such memory when any exists; when none holds any of them, it is the
/// latest time of all memories.
pub proof fn lemma_anchor_follows_any_shared_container(entries: Seq<MemoryMeta>, cs: Seq<Seq<char>>, t: i64)
    requires
        entries.len() > 0,
        is_narrative_anchor(entries, cs, t),
    ensures
        forall|i: int, j: int|
            0 <= i < entries.len() && 0 <= j < entries[i].containers@.len() && cs.contains(
                #[trigger] entries[i].containers@[j]@,
            ) ==> entries[i].time_ns <= t,
        (exists|i: int| 0 <= i < entries.len() && holds_one_of(#[trigger] entries[i], cs)) ==> exists|i: int|
            0 <= i < entries.len() && holds_one_of(#[trigger] entries[i], cs) && entries[i].time_ns == t,
        !(exists|i: int| 0 <= i < entries.len() && holds_one_of(#[trigger] entries[i], cs)) ==> (forall|i: int|
            0 <= i < entries.len() ==> #[trigger] entries[i].time_ns <= t) && exists|i: int|
            0 <= i < entries.len() && #[trigger] entries[i].time_ns == t,
{
    assert forall|i: int| 0 <= i < entries.len() implies holds_one_of(#[trigger] entries[i], cs) == shares_container(
        entries[i],
        cs,
    ) by {}
    assert forall|i: int, j: int|
        0 <= i < entries.len() && 0 <= j < entries[i].containers@.len() && cs.contains(
            #[trigger] entries[i].containers@[j]@,
        ) implies entries[i].time_ns <= t by {
        assert(shares_container(entries[i], cs));
        assert(exists|k: int| 0 <= k < entries.len() && shares_container(#[trigger] entries[k], cs));
    }
    if exists|i: int| 0 <= i < entries.len() && holds_one_of(#[trigger] entries[i], cs) {
        let i = choose|i: int| 0 <= i < entries.len() && holds_one_of(#[trigger] entries[i], cs);
        assert(shares_container(entries[i], cs));
        let k = choose|k: int|
            0 <= k < entries.len() && shares_container(#[trigger] entries[k], cs) && entries[k].time_ns == t;
        assert(holds_one_of(entries[k], cs));
    } else {
        assert(!exists|k: int| 0 <= k < entries.len() && shares_container(#[trigger] entries[k], cs)) by {
            if exists|k: int| 0 <= k < entries.len() && shares_container(#[trigger] entries[k], cs) {
                let k = choose|k: int| 0 <= k < entries.len() && shares_container(#[trigger] entries[k], cs);
                assert(holds_one_of(entries[k], cs));
            }
        }
        assert forall|i: int| 0 <= i < entries.len() implies #[trigger] entries[i].time_ns <= t by {
            let sel = |m: MemoryMeta| true;
            assert(sel(entries[i]));
        }
        let k = choose|k: int| 0 <= k < entries.len() && (|m: MemoryMeta| true)(#[trigger] entries[k]) && entries[k].time_ns == t;
        assert(entries[k].time_ns == t);
    }
}

// ── Narrative layer ──
/// Some tag and some container contain one another.
pub open spec fn tags_match(tags: Seq<Seq<char>>, containers: Seq<Seq<char>>) -> bool {
    exists|a: int, b: int|
        0 <= a < tags.len() && 0 <= b < containers.len() && (is_substring(
            #[trigger] tags[a],
            #[trigger] containers[b],
        ) || is_substring(containers[b], tags[a]))
}

/// The tags `prefix + name` for each name.
pub open spec fn prefixed(prefix: Seq<char>, names: Seq<Seq<char>>) -> Seq<Seq<char>> {
    names.map_values(|n: Seq<char>| prefix + n)
}

/// A filter of one kind (persons, places, objects) passes: no names asked, or a match.
pub open spec fn kind_passes(prefix: Seq<char>, names: Seq<Seq<char>>, containers: Seq<Seq<char>>) -> bool {
    names.len() == 0 || tags_match(prefixed(prefix, names), containers)
}

/// A memory lies in the chapter window of the `span` most recent chapters:
/// with no window (`span` 0) any memory does; otherwise its chapter is one of
/// `latest - span + 1 ..= latest`, where `latest` is the highest chapter held.
pub open spec fn in_chapter_window(m: MemoryMeta, span: usize, latest_chapter: Option<i64>) -> bool {
    span == 0 || (m.chapter matches Some(c) && latest_chapter matches Some(l) && l - span < c && c <= l)
}

/// `l` is the highest chapter among the memories.
pub open spec fn is_latest_chapter(entries: Seq<MemoryMeta>, l: i64) -> bool {
    &&& exists|i: int| 0 <= i < entries.len() && (#[trigger] entries[i]).chapter == Some(l)
    &&& forall|i: int| 0 <= i < entries.len() && (#[trigger] entries[i]).chapter is Some ==> entries[i].chapter->0 <= l
}

/// The highest chapter among the memories, `None` when none has a chapter.
pub open spec fn spec_latest_chapter(entries: Seq<MemoryMeta>) -> Option<i64> {
    if exists|i: int| 0 <= i < entries.len() && (#[trigger] entries[i]).chapter is Some {
        Some(choose|l: i64| is_latest_chapter(entries, l))
    } else {
        None
    }
}

/// The highest chapter among the memories (see `spec_latest_chapter`).
pub fn latest_chapter(entries: &Vec<MemoryMeta>) -> (r: Option<i64>)
    ensures
        r == spec_latest_chapter(entries@),
        r matches Some(l) ==> is_latest_chapter(entries@, l),
{
    let mut best: Option<i64> = None;
    let mut i: usize = 0;
    while i < entries.len()
        invariant
            0 <= i <= entries@.len(),
            best is None <==> !exists|k: int| 0 <= k < i && (#[trigger] entries@[k]).chapter is Some,
            best matches Some(l) ==> is_latest_chapter(entries@.take(i as int), l),
        decreases entries@.len() - i,
    {
        let ghost prev = entries@.take(i as int);
        assert(entries@.take(i + 1) =~= prev.push(entries@[i as int]));
        match entries[i].chapter {
            Some(c) => {
                match best {
                    Some(l) => {
                        if c > l {
                            best = Some(c);
                        }
                    },
                    None => {
                        best = Some(c);
                    },
                }
                assert(entries@.take(i + 1)[i as int] == entries@[i as int]);
            },
            None => {},
        }
        proof {
            if best is Some {
                let l = best->0;
                assert forall|k: int| 0 <= k < i + 1 && (#[trigger] entries@.take(i + 1)[k]).chapter is Some implies entries@.take(i + 1)[k].chapter->0 <= l by {
                    if k < i {
                        assert(entries@.take(i + 1)[k] == prev[k]);
                    }
                }
            }
        }
        i = i + 1;
    }
    assert(entries@.take(i as int) =~= entries@);
    proof {
        if best is Some {
            let l = best->0;
            let w = choose|w: i64| is_latest_chapter(entries@, w);
            assert(is_latest_chapter(entries@, l));
            let iw = choose|k: int| 0 <= k < entries@.len() && (#[trigger] entries@[k]).chapter == Some(w);
            let il = choose|k: int| 0 <= k < entries@.len() && (#[trigger] entries@[k]).chapter == Some(l);
            assert(w == l);
        }
    }
    best
}

/// A memory stays in a narrative recall: it is no constraint, it matches every
/// kind of name asked for (`人物:`, `场景:`, `物件:`), with a time window it lies
/// within `narrative_span_days` days of the anchor, and with a chapter window it
/// lies in the `chapter_span` most recent chapters (see `in_chapter_window`).
pub open spec fn narrative_kept(m: MemoryMeta, req: NarrativeRecallRequest, anchor_ns: i64, latest_chapter: Option<i64>) -> bool {
    let cs = str_views(m.containers@);
    &&& !spec_is_constraint(m)
    &&& kind_passes("人物:"@, str_views(req.persons@), cs)
    &&& kind_passes("场景:"@, str_views(req.locations@), cs)
    &&& kind_passes("物件:"@, str_views(req.objects@), cs)
    &&& (req.narrative_span_days > 0 ==> -(req.narrative_span_days * DAY_NS) <= m.time_ns - anchor_ns
        <= req.narrative_span_days * DAY_NS)
    &&& in_chapter_window(m, req.chapter_span, latest_chapter)
}

/// The layers are disjoint: no memory is both returned by constraint recall
/// (whatever its lowest floor) and kept by narrative recall.
pub proof fn lemma_layers_disjoint(
    m: MemoryMeta,
    min_floor_key: i64,
    req: NarrativeRecallRequest,
    anchor_ns: i64,
    latest_chapter: Option<i64>,
)
    ensures
        !(constraint_selected(m, min_floor_key) && narrative_kept(m, req, anchor_ns, latest_chapter)),
{
}

/// One of the asked `names`, written as the tag `prefix + name`, and one of
/// the `containers` contain one another.
pub open spec fn some_name_hits(prefix: Seq<char>, names: Seq<Seq<char>>, containers: Seq<Seq<char>>) -> bool {
    exists|a: int, b: int|
        0 <= a < names.len() && 0 <= b < containers.len() && (is_substring(
            prefix + #[trigger] names[a],
            #[trigger] containers[b],
        ) || is_substring(containers[b], prefix + names[a]))
}

/// Each list of `wider` holds every name of `narrower`, and a list that was
/// empty stays empty.
pub open spec fn names_widen(narrower: Seq<Seq<char>>, wider: Seq<Seq<char>>) -> bool {
    narrower == wider || (narrower.len() > 0 && forall|a: int| 0 <= a < narrower.len() ==> wider.contains(#[trigger] narrower[a]))
}

proof fn lemma_kind_passes_any_name(prefix: Seq<char>, names: Seq<Seq<char>>, containers: Seq<Seq<char>>)
    ensures
        kind_passes(prefix, names, containers) <==> (names.len() == 0 || some_name_hits(prefix, names, containers)),
{
    let tags = prefixed(prefix, names);
    if names.len() > 0 {
        if tags_match(tags, containers) {
            let (a, b) = choose|a: int, b: int|
                0 <= a < tags.len() && 0 <= b < containers.len() && (is_substring(
                    #[trigger] tags[a],
                    #[trigger] containers[b],
                ) || is_substring(containers[b], tags[a]));
            assert(tags[a] == prefix + names[a]);
            assert(some_name_hits(prefix, names, containers));
        }
        if some_name_hits(prefix, names, containers) {
            let (a, b) = choose|a: int, b: int|
                0 <= a < names.len() && 0 <= b < containers.len() && (is_substring(
                    prefix + #[trigger] names[a],
                    #[trigger] containers[b],
                ) || is_substring(containers[b], prefix + names[a]));
            assert(tags[a] == prefix + names[a]);
            assert(tags_match(tags, containers));
        }
    }
}

proof fn lemma_more_names_still_hit(prefix: Seq<char>, n1: Seq<Seq<char>>, n2: Seq<Seq<char>>, containers: Seq<Seq<char>>)
    requires
        names_widen(n1, n2),
        n1.len() == 0 || some_name_hits(prefix, n1, containers),
    ensures
        n2.len() == 0 || some_name_hits(prefix, n2, containers),
{
    if n1 != n2 {
        let (a, b) = choose|a: int, b: int|
            0 <= a < n1.len() && 0 <= b < containers.len() && (is_substring(
                prefix + #[trigger] n1[a],
                #[trigger] containers[b],
            ) || is_substring(containers[b], prefix + n1[a]));
        assert(n2.contains(n1[a]));
        let a2 = choose|a2: int| 0 <= a2 < n2.len() && n2[a2] == n1[a];
        assert(is_substring(prefix + n2[a2], containers[b]) || is_substring(containers[b], prefix + n2[a2]));
    }
}

/// Names of one kind are alternatives, kinds are combined: a memory is kept by
/// narrative recall exactly when it is no constraint, for each kind with names
/// asked (`人物:`, `场景:`, `物件:`) one asked name's tag and one of its
/// containers contain one another, and it lies in the time and chapter windows.
pub proof fn lemma_narrative_names_are_alternatives(
    m: MemoryMeta,
    req: NarrativeRecallRequest,
    anchor_ns: i64,
    latest_chapter: Option<i64>,
)
    ensures
        narrative_kept(m, req, anchor_ns, latest_chapter) <==> ({
            let cs = str_views(m.containers@);
            &&& !spec_is_constraint(m)
            &&& (req.persons@.len() == 0 || some_name_hits("人物:"@, str_views(req.persons@), cs))
            &&& (req.locations@.len() == 0 || some_name_hits("场景:"@, str_views(req.locations@), cs))
            &&& (req.objects@.len() == 0 || some_name_hits("物件:"@, str_views(req.objects@), cs))
            &&& (req.narrative_span_days > 0 ==> m.time_ns - anchor_ns <= req.narrative_span_days * DAY_NS
                && anchor_ns - m.time_ns <= req.narrative_span_days * DAY_NS)
            &&& in_chapter_window(m, req.chapter_span, latest_chapter)
        }),
{
    let cs = str_views(m.containers@);
    lemma_kind_passes_any_name("人物:"@, str_views(req.persons@), cs);
    lemma_kind_passes_any_name("场景:"@, str_views(req.locations@), cs);
    lemma_kind_passes_any_name("物件:"@, str_views(req.objects@), cs);
}

/// Asking for more names never drops a memory: when each kind of `wider`
/// holds every name `narrower` asked for that kind (a kind asked for nothing
/// stays so) and the windows are the same, every memory narrative recall keeps
/// for `narrower` it keeps for `wider`.
pub proof fn lemma_narrative_more_names_keep_more(
    m: MemoryMeta,
    narrower: NarrativeRecallRequest,
    wider: NarrativeRecallRequest,
    anchor_ns: i64,
    latest_chapter: Option<i64>,
)
    requires
        names_widen(str_views(narrower.persons@), str_views(wider.persons@)),
        names_widen(str_views(narrower.locations@), str_views(wider.locations@)),
        names_widen(str_views(narrower.objects@), str_views(wider.objects@)),
        narrower.narrative_span_days == wider.narrative_span_days,
        narrower.chapter_span == wider.chapter_span,
    ensures
        narrative_kept(m, narrower, anchor_ns, latest_chapter) ==> narrative_kept(m, wider, anchor_ns, latest_chapter),
{
    let cs = str_views(m.containers@);
    lemma_kind_passes_any_name("人物:"@, str_views(narrower.persons@), cs);
    lemma_kind_passes_any_name("场景:"@, str_views(narrower.locations@), cs);
    lemma_kind_passes_any_name("物件:"@, str_views(narrower.objects@), cs);
    lemma_kind_passes_any_name("人物:"@, str_views(wider.persons@), cs);
    lemma_kind_passes_any_name("场景:"@, str_views(wider.locations@), cs);
    lemma_kind_passes_any_name("物件:"@, str_views(wider.objects@), cs);
    if narrative_kept(m, narrower, anchor_ns, latest_chapter) {
        lemma_more_names_still_hit("人物:"@, str_views(narrower.persons@), str_views(wider.persons@), cs);
        lemma_more_names_still_hit("场景:"@, str_views(narrower.locations@), str_views(wider.locations@), cs);
        lemma_more_names_still_hit("物件:"@, str_views(narrower.objects@), str_views(wider.objects@), cs);
    }
}

fn prefixed_tags(prefix: &str, names: &Vec<String>) -> (tags: Vec<String>)
    ensures
        str_views(tags@) == prefixed(prefix@, str_views(names@)),
{
    let mut tags: Vec<String> = Vec::new();
    let mut i: usize = 0;
    while i < names.len()
        invariant
            0 <= i <= names@.len(),
            str_views(tags@) == prefixed(prefix@, str_views(names@)).take(i as int),
        decreases names@.len() - i,
    {
        let t = concat(prefix, names[i].as_str());
        assert(t@ == prefixed(prefix@, str_views(names@))[i as int]);
        let ghost prev = tags@;
        tags.push(t);
        assert(str_views(tags@) =~= str_views(prev).push(t@));
        i = i + 1;
        assert(str_views(tags@) =~= prefixed(prefix@, str_views(names@)).take(i as int));
    }
    assert(prefixed(prefix@, str_views(names@)).take(names@.len() as int) =~= prefixed(
        prefix@,
        str_views(names@),
    ));
    tags
}

/// Whether some tag and some container contain one another (see `tags_match`).
pub fn any_tag_matches(tags: &Vec<String>, containers: &Vec<String>) -> (b: bool)
    ensures
        b == tags_match(str_views(tags@), str_views(containers@)),
{
    let ghost ts = str_views(tags@);
    let ghost cs = str_views(containers@);
    let mut a: usize = 0;
    while a < tags.len()
        invariant
            ts == str_views(tags@),
            cs == str_views(containers@),
            0 <= a <= tags@.len(),
            forall|x: int, y: int|
                0 <= x < a && 0 <= y < cs.len() ==> !(is_substring(#[trigger] ts[x], #[trigger] cs[y])
                    || is_substring(cs[y], ts[x])),
        decreases tags@.len() - a,
    {
        let mut b: usize = 0;
        while b < containers.len()
            invariant
                ts == str_views(tags@),
                cs == str_views(containers@),
                0 <= a < tags@.len(),
                0 <= b <= containers@.len(),
                forall|x: int, y: int|
                    0 <= x < a && 0 <= y < cs.len() ==> !(is_substring(#[trigger] ts[x], #[trigger] cs[y])
                        || is_substring(cs[y], ts[x])),
                forall|y: int| 0 <= y < b ==> !(is_substring(ts[a as int], #[trigger] cs[y]) || is_substring(cs[y], ts[a as int])),
            decreases containers@.len() - b,
        {
            if contains_str(containers[b].as_str(), tags[a].as_str()) || contains_str(
                tags[a].as_str(),
                containers[b].as_str(),
            ) {
                assert(is_substring(ts[a as int], cs[b as int]) || is_substring(cs[b as int], ts[a as int]));
                return true;
            }
            b = b + 1;
        }
        a = a + 1;
    }
    false
}

fn kind_passes_exec(prefix: &str, names: &Vec<String>, containers: &Vec<String>) -> (b: bool)
    ensures
        b == kind_passes(prefix@, str_views(names@), str_views(containers@)),
{
    if names.len() == 0 {
        return true;
    }
    let tags = prefixed_tags(prefix, names);
    any_tag_matches(&tags, containers)
}

/// Whether a memory stays in a narrative recall (see `narrative_kept`).
pub fn narrative_keeps(m: &MemoryMeta, req: &NarrativeRecallRequest, anchor_ns: i64, latest_chapter: Option<i64>) -> (b: bool)
    ensures
        b == narrative_kept(*m, *req, anchor_ns, latest_chapter),
{
    if m.is_constraint() {
        return false;
    }
    if !kind_passes_exec("人物:", &req.persons, &m.containers) {
        return false;
    }
    if !kind_passes_exec("场景:", &req.locations, &m.containers) {
        return false;
    }
    if !kind_passes_exec("物件:", &req.objects, &m.containers) {
        return false;
    }
    if req.narrative_span_days > 0 {
        let span = req.narrative_span_days as i128 * DAY_NS as i128;
        let dist = m.time_ns as i128 - anchor_ns as i128;
        if dist > span || dist < -span {
            return false;
        }
    }
    if req.chapter_span > 0 {
        match (m.chapter, latest_chapter) {
            (Some(c), Some(l)) => {
                if !(l as i128 - (req.chapter_span as i128) < c as i128 && c <= l) {
                    return false;
                }
            },
            _ => {
                return false;
            },
        }
    }
    true
}

/// Narrative recall's filter over the candidates gathered around the anchor:
/// the positions of those kept (see `narrative_kept`), in their order.
pub fn filter_narrative(
    candidates: &Vec<MemoryMeta>,
    req: &NarrativeRecallRequest,
    anchor_ns: i64,
    latest_chapter: Option<i64>,
) -> (r: Vec<usize>)
    ensures
        forall|a: int, b: int| 0 <= a < b < r@.len() ==> #[trigger] r@[a] < #[trigger] r@[b],
        forall|k: int| 0 <= k < r@.len() ==> #[trigger] r@[k] < candidates@.len() && narrative_kept(
            candidates@[r@[k] as int],
            *req,
            anchor_ns,
            latest_chapter,
        ),
        forall|p: int| 0 <= p < candidates@.len() && narrative_kept(candidates@[p], *req, anchor_ns, latest_chapter) ==> r@.contains(p as usize),
{
    let mut r: Vec<usize> = Vec::new();
    let mut i: usize = 0;
    while i < candidates.len()
        invariant
            0 <= i <= candidates@.len(),
            forall|a: int, b: int| 0 <= a < b < r@.len() ==> #[trigger] r@[a] < #[trigger] r@[b],
            forall|k: int| 0 <= k < r@.len() ==> #[trigger] r@[k] < i && narrative_kept(
                candidates@[r@[k] as int],
                *req,
                anchor_ns,
                latest_chapter,
            ),
            forall|p: int| 0 <= p < i && narrative_kept(candidates@[p], *req, anchor_ns, latest_chapter) ==> r@.contains(p as usize),
        decreases candidates@.len() - i,
    {
        let ghost prev = r@;
        if narrative_keeps(&candidates[i], req, anchor_ns, latest_chapter) {
            r.push(i);
        }
        assert forall|p: int| 0 <= p < i + 1 && narrative_kept(candidates@[p], *req, anchor_ns, latest_chapter) implies r@.contains(p as usize) by {
            if p < i {
                let k = choose|k: int| 0 <= k < prev.len() && prev[k] == p as usize;
                assert(r@[k] == p as usize);
            } else {
                assert(r@[r@.len() - 1] == p as usize);
            }
        }
        i = i + 1;
    }
    r
}

// ── Multi-dimensional recall ──
/// Dimension `name` (天, 地, 人, 物, 道) is active: every one is when none is listed.
pub open spec fn spec_dimension_active(dims: Seq<Seq<char>>, name: Seq<char>) -> bool {
    dims.len() == 0 || dims.contains(name)
}

/// Whether dimension `name` is active (see `spec_dimension_active`).
pub fn dimension_active(dims: &Vec<String>, name: &str) -> (b: bool)
    ensures
        b == spec_dimension_active(str_views(dims@), name@),
{
    dims.len() == 0 || contains_text(dims, name)
}

/// `c` begins with one of `prefixes`.
pub open spec fn has_any_prefix(c: Seq<char>, prefixes: Seq<Seq<char>>) -> bool {
    exists|i: int| 0 <= i < prefixes.len() && is_prefix(#[trigger] prefixes[i], c)
}

/// The context containers that begin with one of `prefixes`, in order: the
/// point-of-view tags (`人物:`, `关系:`) or the object tags (`物件:`).
pub fn tags_with_prefixes(context: &Vec<String>, prefixes: &Vec<String>) -> (r: Vec<String>)
    ensures
        str_views(r@) == str_views(context@).filter(|c: Seq<char>| has_any_prefix(c, str_views(prefixes@))),
{
    let ghost cs = str_views(context@);
    let ghost ps = str_views(prefixes@);
    let ghost f = |c: Seq<char>| has_any_prefix(c, ps);
    let mut r: Vec<String> = Vec::new();
    let mut i: usize = 0;
    while i < context.len()
        invariant
            cs == str_views(context@),
            ps == str_views(prefixes@),
            f == (|c: Seq<char>| has_any_prefix(c, ps)),
            0 <= i <= context@.len(),
            str_views(r@) == cs.take(i as int).filter(f),
        decreases context@.len() - i,
    {
        let mut found = false;
        let mut k: usize = 0;
        while k < prefixes.len() && !found
            invariant
                cs == str_views(context@),
                ps == str_views(prefixes@),
                0 <= i < context@.len(),
                0 <= k <= prefixes@.len(),
                found ==> has_any_prefix(cs[i as int], ps),
                !found ==> forall|q: int| 0 <= q < k ==> !is_prefix(#[trigger] ps[q], cs[i as int]),
            decreases prefixes@.len() - k,
        {
            if has_prefix(context[i].as_str(), prefixes[k].as_str()) {
                assert(is_prefix(ps[k as int], cs[i as int]));
                found = true;
            }
            k = k + 1;
        }
        let ghost prev = r@;
        proof {
            assert(cs.take(i + 1) =~= cs.take(i as int) + seq![cs[i as int]]);
            Seq::filter_distributes_over_add(cs.take(i as int), seq![cs[i as int]], f);
        }
        if found {
            r.push(context[i].clone());
            assert(seq![cs[i as int]].filter(f) =~= seq![cs[i as int]]) by {
                reveal_with_fuel(Seq::filter, 2);
            }
            assert(str_views(r@) =~= str_views(prev) + seq![cs[i as int]]);
        } else {
            assert(seq![cs[i as int]].filter(f) =~= Seq::<Seq<char>>::empty()) by {
                reveal_with_fuel(Seq::filter, 2);
            }
        }
        i = i + 1;
    }
    assert(cs.take(context@.len() as int) =~= cs);
    r
}

/// A memory is found by the body dimension (人): it records a body state or an
/// emotion, and one of its containers is a point-of-view tag.
pub fn body_match(containers: &Vec<String>, pov_tags: &Vec<String>, has_body_or_emotion: bool) -> (b: bool)
    ensures
        b == (shares_any(str_views(containers@), str_views(pov_tags@)) && has_body_or_emotion),
{
    shares_any_container(containers, pov_tags) && has_body_or_emotion
}

/// A memory is found by the object dimension (物): an object its events are
/// done with and an object tag contain one another, or one of its containers
/// is an object tag.
pub fn object_match(containers: &Vec<String>, withs: &Vec<String>, object_tags: &Vec<String>) -> (b: bool)
    ensures
        b == (tags_match(str_views(object_tags@), str_views(withs@)) || shares_any(
            str_views(containers@),
            str_views(object_tags@),
        )),
{
    any_tag_matches(object_tags, withs) || shares_any_container(containers, object_tags)
}

/// The containers a narrative recall is centred on: `人物:` with each person,
/// then `场景:` with each location, then `物件:` with each object.
pub fn narrative_context(req: &NarrativeRecallRequest) -> (r: Vec<String>)
    ensures
        str_views(r@) == prefixed("人物:"@, str_views(req.persons@)) + prefixed("场景:"@, str_views(
            req.locations@,
        )) + prefixed("物件:"@, str_views(req.objects@)),
{
    let mut r = prefixed_tags("人物:", &req.persons);
    let mut l = prefixed_tags("场景:", &req.locations);
    let mut o = prefixed_tags("物件:", &req.objects);
    let ghost (a, b, c) = (str_views(r@), str_views(l@), str_views(o@));
    let ghost (rv, lv) = (r@, l@);
    r.append(&mut l);
    assert(str_views(r@) =~= a + b) by {
        assert(r@ =~= rv + lv);
    }
    let ghost rv2 = r@;
    let ghost ov = o@;
    r.append(&mut o);
    assert(str_views(r@) =~= a + b + c) by {
        assert(r@ =~= rv2 + ov);
    }
    r
}

/// The dimensions a recall call uses: the listed ones; when none is listed,
/// time and energy (天, 道), with space (地) too when containers are given.
pub open spec fn spec_recall_dimensions(dims: Seq<Seq<char>>, containers: Seq<Seq<char>>) -> Seq<Seq<char>> {
    if dims.len() > 0 {
        dims
    } else if containers.len() == 0 {
        seq!["天"@, "道"@]
    } else {
        seq!["天"@, "地"@, "道"@]
    }
}

/// The dimensions a recall call uses (see `spec_recall_dimensions`).
pub fn recall_dimensions(dims: &Vec<String>, containers: &Vec<String>) -> (r: Vec<String>)
    ensures
        str_views(r@) == spec_recall_dimensions(str_views(dims@), str_views(containers@)),
{
    if dims.len() > 0 {
        let r = dims.clone();
        assert(str_views(r@) =~= str_views(dims@));
        return r;
    }
    let mut r: Vec<String> = Vec::new();
    r.push(String::from_str("天"));
    if containers.len() > 0 {
        r.push(String::from_str("地"));
    }
    r.push(String::from_str("道"));
    assert(str_views(r@) =~= spec_recall_dimensions(str_views(dims@), str_views(containers@)));
    r
}

} // verus!
