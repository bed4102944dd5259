//! The float-free part of the memory model.
//!
//! A memory is anchored in narrative time (`TimeStamp`) and in space
//! (containers such as `人物:桑安歌`). The engine's rules read a memory through
//! `MemoryMeta`: its id, time, containers, sense impressions, layer, and the
//! order keys of its energy floor and potential energy.
use vstd::prelude::*;

verus! {

/// Reads the wall clock through `chrono::Utc::now`, in nanoseconds since the
/// Unix epoch, 0 when out of range. Trusted: nothing is stated of the value,
/// which depends on the time of the call.
#[verifier::external_body]
pub(crate) fn wall_clock_ns() -> i64 {
    chrono::Utc::now().timestamp_nanos_opt().unwrap_or(0)
}

/// Layer of a memory: constraints (world rules, never decaying) or narrative events.
#[derive(Debug, Clone, Copy, PartialEq, Eq, Structural)]
pub enum MemoryType {
    Constraint,
    Narrative,
}

impl Default for MemoryType {
    fn default() -> (r: Self)
        ensures
            r == MemoryType::Narrative,
    {
        MemoryType::Narrative
    }
}

/// A point in (narrative) time.
#[derive(Debug, Clone)]
pub struct TimeStamp {
    pub absolute_ns: i64,
    pub era: String,
    pub relative: Vec<String>,
    pub cycle: Option<String>,
    pub subjective: Option<String>,
    pub precision: String,
}

impl Default for TimeStamp {
    fn default() -> (r: Self)
        ensures
            r.absolute_ns == 0,
            r.era@ == Seq::<char>::empty(),
            r.relative@ == Seq::<String>::empty(),
            r.cycle is None,
            r.subjective is None,
            r.precision@ == Seq::<char>::empty(),
    {
        TimeStamp {
            absolute_ns: 0,
            era: String::new(),
            relative: Vec::new(),
            cycle: None,
            subjective: None,
            precision: String::new(),
        }
    }
}

impl TimeStamp {
    /// The current wall-clock time, in the modern era at second precision.
    pub fn now() -> (r: Self)
        ensures
            r.era@ == "现代"@,
            r.precision@ == "秒"@,
            r.relative@ == Seq::<String>::empty(),
            r.cycle is None,
            r.subjective is None,
    {
        let now = wall_clock_ns();
        TimeStamp {
            absolute_ns: now,
            era: String::from_str("现代"),
            relative: Vec::new(),
            cycle: None,
            subjective: None,
            precision: String::from_str("秒"),
        }
    }
}

/// A topological relation to another place.
#[derive(Debug, Clone)]
pub struct TopoRel {
    pub direction: String,
    pub target: String,
    pub distance: String,
}

/// The state of a body at an offset within a memory.
#[derive(Debug, Clone)]
pub struct BodyState {
    pub time_offset_ns: i64,
    pub posture: Option<String>,
    pub sensations: Vec<String>,
    pub actions: Vec<String>,
}

/// Sensory-triggered recall: memories that share any of the given impressions.
#[derive(Debug, Clone)]
pub struct SensoryRecallRequest {
    /// Sense impressions such as `涩`, `凉`, `颤`.
    pub senses: Vec<String>,
    /// Upper bound on the number of memories returned.
    pub top_k: usize,
    /// Time window around the newest memory, in days (0 = no window).
    pub narrative_span_days: i64,
}

impl Default for SensoryRecallRequest {
    fn default() -> (r: Self)
        ensures
            r.senses@ == Seq::<String>::empty(),
            r.top_k == 10,
            r.narrative_span_days == 0,
    {
        SensoryRecallRequest { senses: Vec::new(), top_k: 10, narrative_span_days: 0 }
    }
}

/// Narrative recall along time, place, persons and objects; constraints excluded.
#[derive(Debug, Clone)]
pub struct NarrativeRecallRequest {
    pub persons: Vec<String>,
    pub locations: Vec<String>,
    pub objects: Vec<String>,
    /// Time window around the newest memory, in days (0 = no window).
    pub narrative_span_days: i64,
    /// Chapter window (0 = unlimited).
    pub chapter_span: usize,
    /// Upper bound on the number of memories returned.
    pub top_k: usize,
    /// Active dimensions (`天`, `地`, `人`, `物`); empty = all.
    pub dimensions: Vec<String>,
}

impl Default for NarrativeRecallRequest {
    fn default() -> (r: Self)
        ensures
            r.persons@ == Seq::<String>::empty(),
            r.locations@ == Seq::<String>::empty(),
            r.objects@ == Seq::<String>::empty(),
            r.narrative_span_days == 30,
            r.chapter_span == 0,
            r.top_k == 10,
            r.dimensions@ == Seq::<String>::empty(),
    {
        NarrativeRecallRequest {
            persons: Vec::new(),
            locations: Vec::new(),
            objects: Vec::new(),
            narrative_span_days: 30,
            chapter_span: 0,
            top_k: 10,
            dimensions: Vec::new(),
        }
    }
}

/// The order key of an energy floor of one half: a memory whose floor key is
/// at least this one belongs to the constraint layer.
pub const CONSTRAINT_FLOOR_KEY: i64 = 1056964608;

/// The order key of a single-precision energy given by its IEEE-754 bits: the
/// magnitude bits, negated when the sign bit is set. For numbers (not NaN) two
/// keys compare as the energies do, and both zeros have key 0.
pub open spec fn spec_order_key(bits: u32) -> int {
    if bits < 0x8000_0000 {
        bits as int
    } else {
        -(bits - 0x8000_0000)
    }
}

/// The order key of an energy, from its IEEE-754 bits (see `spec_order_key`).
pub fn energy_order_key(bits: u32) -> (k: i64)
    ensures
        k == spec_order_key(bits),
{
    if bits < 0x8000_0000 {
        bits as i64
    } else {
        -((bits - 0x8000_0000) as i64)
    }
}

/// The layer a memorized memory is put in: the one named by `requested`
/// (`constraint`; any other name means narrative), or, when none is named,
/// the constraint layer exactly when the floor is at least one half.
pub open spec fn spec_memory_type_for(requested: Option<Seq<char>>, floor_key: i64) -> MemoryType {
    match requested {
        Some(s) => if s == "constraint"@ {
            MemoryType::Constraint
        } else {
            MemoryType::Narrative
        },
        None => if floor_key >= CONSTRAINT_FLOOR_KEY {
            MemoryType::Constraint
        } else {
            MemoryType::Narrative
        },
    }
}

/// The layer of a memorized memory (see `spec_memory_type_for`).
pub fn memory_type_for(requested: Option<&str>, floor_key: i64) -> (t: MemoryType)
    ensures
        t == spec_memory_type_for(
            match requested {
                Some(s) => Some(s@),
                None => None,
            },
            floor_key,
        ),
{
    match requested {
        Some(s) => if crate::text::same_text(s, "constraint") {
            MemoryType::Constraint
        } else {
            MemoryType::Narrative
        },
        None => if floor_key >= CONSTRAINT_FLOOR_KEY {
            MemoryType::Constraint
        } else {
            MemoryType::Narrative
        },
    }
}

/// Constraint-layer recall: every constraint whose floor is at least `min_floor_key`.
///
/// Energies are carried by order keys: comparing two keys compares the
/// energies they stand for.
#[derive(Debug, Clone, Copy)]
pub struct ConstraintRecallRequest {
    /// Order key of the lowest floor returned (the key of one half by default).
    pub min_floor_key: i64,
    /// Upper bound on the number of memories returned.
    pub top_k: usize,
}

impl Default for ConstraintRecallRequest {
    fn default() -> (r: Self)
        ensures
            r.min_floor_key == CONSTRAINT_FLOOR_KEY,
            r.top_k == 50,
    {
        ConstraintRecallRequest { min_floor_key: CONSTRAINT_FLOOR_KEY, top_k: 50 }
    }
}

/// How often a container occurs, and the latest time it was seen.
#[derive(Debug, Clone)]
pub struct ContainerStats {
    pub name: String,
    pub count: usize,
    pub latest_time_ns: i64,
}

/// What the engine's rules read of a memory.
///
/// `floor_key` and `energy_key` are order keys of the memory's energy floor and
/// potential energy: keys compare as the energies do.
#[derive(Debug, Clone)]
pub struct MemoryMeta {
    /// The memory's ULID, as text.
    pub id: String,
    /// Narrative time, nanoseconds.
    pub time_ns: i64,
    /// Spatial anchors such as `人物:桑安歌`, `场景:邯郸酒肆`.
    pub containers: Vec<String>,
    /// Sense impressions such as `涩`.
    pub senses: Vec<String>,
    pub memory_type: MemoryType,
    pub floor_key: i64,
    pub energy_key: i64,
    /// The chapter its chapter index names (`卷二/第152回` → 152), if any.
    pub chapter: Option<i64>,
}

/// The views of a sequence of strings.
pub open spec fn str_views(v: Seq<String>) -> Seq<Seq<char>> {
    v.map_values(|s: String| s@)
}

/// A memory is a constraint when its type says so or its floor is at least one half.
pub open spec fn spec_is_constraint(m: MemoryMeta) -> bool {
    m.memory_type == MemoryType::Constraint || m.floor_key >= CONSTRAINT_FLOOR_KEY
}

impl MemoryMeta {
    /// Whether the memory belongs to the constraint layer.
    pub fn is_constraint(&self) -> (b: bool)
        ensures
            b == spec_is_constraint(*self),
    {
        self.memory_type == MemoryType::Constraint || self.floor_key >= CONSTRAINT_FLOOR_KEY
    }
}

} // verus!
