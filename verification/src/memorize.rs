//! What memorizing decides: the narrative time of a new memory and the
//! normalization of its containers against the ones already known.
use crate::model::{str_views, MemoryMeta};
use crate::text::{concat, int_decimal_text, int_text};
use crate::store::{
    chapter_time_ns, derive_time_ns_from_containers, fuzzy_cut_ok, spec_first_time_number,
    spec_fuzzy_match, try_fuzzy_match_container,
};
use vstd::prelude::*;

verus! {

/// Where a memorized memory's time came from.
#[derive(Debug, Clone, Copy, PartialEq, Eq, Structural)]
pub enum TimeSource {
    /// Given with the memory.
    Given,
    /// Derived from a `第N回`, `sprint-N` or `day-N` container.
    Chapter,
    /// No time given or derivable: the wall clock at memorizing.
    WallClock,
}

/// The time of a memorized memory: the given one; else, when containers are
/// given and one names a chapter, the chapter's time; else `now`.
pub open spec fn spec_memorized_time(time_ns: Option<i64>, containers: Option<Seq<Seq<char>>>, now: i64) -> (int, TimeSource) {
    match time_ns {
        Some(t) => (t as int, TimeSource::Given),
        None => match containers {
            Some(cs) => match spec_first_time_number(cs) {
                Some(n) => (chapter_time_ns(n as int), TimeSource::Chapter),
                None => (now as int, TimeSource::WallClock),
            },
            None => (now as int, TimeSource::WallClock),
        },
    }
}

/// The views of optional containers.
pub open spec fn opt_views(containers: Option<&Vec<String>>) -> Option<Seq<Seq<char>>> {
    match containers {
        Some(cs) => Some(str_views(cs@)),
        None => None,
    }
}

/// The time of a memorized memory and where it came from (see
/// `spec_memorized_time`). A chapter's time must fit in an `i64`.
pub fn memorized_time(time_ns: Option<i64>, containers: Option<&Vec<String>>, now: i64) -> (r: (i64, TimeSource))
    requires
        time_ns is None ==> (opt_views(containers) matches Some(cs) ==> (spec_first_time_number(cs) matches Some(n)
            ==> i64::MIN <= chapter_time_ns(n as int) <= i64::MAX)),
    ensures
        r.0 == spec_memorized_time(time_ns, opt_views(containers), now).0,
        r.1 == spec_memorized_time(time_ns, opt_views(containers), now).1,
{
    match time_ns {
        Some(t) => (t, TimeSource::Given),
        None => match containers {
            Some(cs) => match derive_time_ns_from_containers(cs) {
                Some(t) => (t, TimeSource::Chapter),
                None => (now, TimeSource::WallClock),
            },
            None => (now, TimeSource::WallClock),
        },
    }
}

/// A container as memorized: its known form when fuzzy matching finds one,
/// else itself.
pub open spec fn normalized(entries: Seq<MemoryMeta>, c: Seq<char>) -> Seq<char> {
    match spec_fuzzy_match(entries, c) {
        Some(s) => s,
        None => c,
    }
}

/// Normalizes each container against the known ones (see `normalized`);
/// `None` when one of them cannot be matched (its lowered form cannot be cut,
/// see `fuzzy_cut_ok`).
pub fn normalize_containers(entries: &Vec<MemoryMeta>, raw: &Vec<String>) -> (r: Option<Vec<String>>)
    ensures
        r is None <==> exists|i: int| 0 <= i < raw@.len() && !fuzzy_cut_ok(#[trigger] raw@[i]@),
        r matches Some(v) ==> v@.len() == raw@.len() && forall|i: int|
            0 <= i < raw@.len() ==> (#[trigger] v@[i])@ == normalized(entries@, raw@[i]@),
{
    let mut v: Vec<String> = Vec::new();
    let mut i: usize = 0;
    while i < raw.len()
        invariant
            0 <= i <= raw@.len(),
            v@.len() == i,
            forall|k: int| 0 <= k < i ==> fuzzy_cut_ok(#[trigger] raw@[k]@),
            forall|k: int| 0 <= k < i ==> (#[trigger] v@[k])@ == normalized(entries@, raw@[k]@),
        decreases raw@.len() - i,
    {
        match try_fuzzy_match_container(entries, raw[i].as_str()) {
            None => return None,
            Some(Some(s)) => v.push(s),
            Some(None) => v.push(raw[i].clone()),
        }
        i = i + 1;
    }
    Some(v)
}

/// The order key of an energy floor of 0.3: from this floor on, a memory
/// counts as important.
pub const IMPORTANT_FLOOR_KEY: i64 = 1050253722;

/// The warning given when a memory gets the wall-clock time.
pub open spec fn no_time_warning() -> Seq<char> {
    "time_ns 未设置，使用墙上时钟时间戳。如有叙事时间请传入 time_ns。"@
}

/// The suggestion given when the time was derived from a container.
pub open spec fn derived_time_note(t: i64) -> Seq<char> {
    "time_ns 已从 containers 自动推导: "@ + int_text(t as int)
}

/// The suggestion given when a container was normalized to a known one.
pub open spec fn renamed_note(raw: Seq<char>, normalized: Seq<char>) -> Seq<char> {
    "container '"@ + raw + "' 已规范化为 '"@ + normalized + "'"@
}

/// The suggestion given for an important memory without a body state.
pub open spec fn body_state_note() -> Seq<char> {
    "建议添加 body_state (JSON) 以激活'人'维度召回"@
}

/// One note for each container that normalization changed, in order.
pub open spec fn rename_notes(raw: Seq<Seq<char>>, normalized: Seq<Seq<char>>) -> Seq<Seq<char>>
    decreases raw.len(),
{
    if raw.len() == 0 {
        Seq::empty()
    } else {
        let k = raw.len() - 1;
        rename_notes(raw.drop_last(), normalized.take(k)) + if normalized[k] != raw[k] {
            seq![renamed_note(raw[k], normalized[k])]
        } else {
            Seq::empty()
        }
    }
}

/// The warnings of a memorize call: one when the time is the wall clock's.
pub open spec fn spec_memorize_warnings(source: TimeSource) -> Seq<Seq<char>> {
    if source == TimeSource::WallClock {
        seq![no_time_warning()]
    } else {
        Seq::empty()
    }
}

/// The suggestions of a memorize call: the derived time, then each
/// normalized container, then, for an important memory (floor at least 0.3)
/// given without a body state, that one should be added.
pub open spec fn spec_memorize_suggestions(
    source: TimeSource,
    t: i64,
    raw: Seq<Seq<char>>,
    normalized: Seq<Seq<char>>,
    has_body_state: bool,
    floor_key: i64,
) -> Seq<Seq<char>> {
    (if source == TimeSource::Chapter {
        seq![derived_time_note(t)]
    } else {
        Seq::empty()
    }) + rename_notes(raw, normalized) + (if !has_body_state && floor_key >= IMPORTANT_FLOOR_KEY {
        seq![body_state_note()]
    } else {
        Seq::empty()
    })
}

/// The warnings and suggestions a memorize call answers with (see
/// `spec_memorize_warnings`, `spec_memorize_suggestions`): `t` is the time the
/// memory got from `source`, `raw` the containers given and `normalized` what
/// they became, `floor_key` the order key of the memory's energy floor.
pub fn memorize_notes(
    source: TimeSource,
    t: i64,
    raw: &Vec<String>,
    normalized: &Vec<String>,
    has_body_state: bool,
    floor_key: i64,
) -> (r: (Vec<String>, Vec<String>))
    requires
        normalized@.len() == raw@.len(),
    ensures
        str_views(r.0@) == spec_memorize_warnings(source),
        str_views(r.1@) == spec_memorize_suggestions(
            source,
            t,
            str_views(raw@),
            str_views(normalized@),
            has_body_state,
            floor_key,
        ),
{
    let mut warnings: Vec<String> = Vec::new();
    if source == TimeSource::WallClock {
        warnings.push(String::from_str("time_ns 未设置，使用墙上时钟时间戳。如有叙事时间请传入 time_ns。"));
    }
    assert(str_views(warnings@) =~= spec_memorize_warnings(source));
    let mut notes: Vec<String> = Vec::new();
    if source == TimeSource::Chapter {
        let n = int_decimal_text(t);
        notes.push(concat("time_ns 已从 containers 自动推导: ", n.as_str()));
    }
    let ghost first = str_views(notes@);
    assert(first =~= (if source == TimeSource::Chapter {
        seq![derived_time_note(t)]
    } else {
        Seq::<Seq<char>>::empty()
    }));
    let ghost rv = str_views(raw@);
    let ghost nv = str_views(normalized@);
    let mut i: usize = 0;
    while i < raw.len()
        invariant
            rv == str_views(raw@),
            nv == str_views(normalized@),
            normalized@.len() == raw@.len(),
            0 <= i <= raw@.len(),
            str_views(notes@) == first + rename_notes(rv.take(i as int), nv.take(i as int)),
        decreases raw@.len() - i,
    {
        let ghost prev = notes@;
        assert(rv.take(i + 1).drop_last() =~= rv.take(i as int));
        assert(nv.take(i + 1).take(i as int) =~= nv.take(i as int));
        assert(rv.take(i + 1)[i as int] == raw@[i as int]@);
        assert(nv.take(i + 1)[i as int] == normalized@[i as int]@);
        if !crate::text::same_text(normalized[i].as_str(), raw[i].as_str()) {
            let a = concat("container '", raw[i].as_str());
            let b = concat(a.as_str(), "' 已规范化为 '");
            let c = concat(b.as_str(), normalized[i].as_str());
            notes.push(concat(c.as_str(), "'"));
            assert(str_views(notes@) =~= str_views(prev).push(renamed_note(rv[i as int], nv[i as int])));
        }
        i = i + 1;
        assert(str_views(notes@) =~= first + rename_notes(rv.take(i as int), nv.take(i as int)));
    }
    assert(rv.take(raw@.len() as int) =~= rv);
    assert(nv.take(raw@.len() as int) =~= nv);
    let ghost mid = str_views(notes@);
    if !has_body_state && floor_key >= IMPORTANT_FLOOR_KEY {
        notes.push(String::from_str("建议添加 body_state (JSON) 以激活'人'维度召回"));
        assert(str_views(notes@) =~= mid.push(body_state_note()));
    }
    assert(str_views(notes@) =~= spec_memorize_suggestions(source, t, rv, nv, has_body_state, floor_key));
    (warnings, notes)
}

} // verus!
