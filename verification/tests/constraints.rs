use taodb::model::{energy_order_key, MemoryMeta, MemoryType, CONSTRAINT_FLOOR_KEY};
use taodb::recall::{energy_range, recall_constraints};
use taodb::sensory::find_entry;
use taodb::ConstraintRecallRequest;

fn key(x: f32) -> i64 {
    energy_order_key(x.to_bits())
}

fn from_text(text: &str) -> MemoryMeta {
    MemoryMeta {
        id: text.to_string(),
        time_ns: 0,
        containers: vec![],
        senses: vec![],
        memory_type: MemoryType::Narrative,
        floor_key: key(0.0),
        energy_key: key(0.0),
        chapter: None,
    }
}

fn make_constraint(text: &str, time_ns: i64, containers: Vec<&str>, floor: f32) -> MemoryMeta {
    let mut m = from_text(text);
    m.time_ns = time_ns;
    m.containers = containers.into_iter().map(String::from).collect();
    m.floor_key = key(floor);
    m.memory_type = MemoryType::Constraint;
    m
}

fn make_narrative(text: &str, time_ns: i64, containers: Vec<&str>) -> MemoryMeta {
    let mut m = from_text(text);
    m.time_ns = time_ns;
    m.containers = containers.into_iter().map(String::from).collect();
    m
}

/// Cache order as the store keeps it: a put of a known id replaces it in place.
fn put(cache: &mut Vec<MemoryMeta>, m: MemoryMeta) {
    match find_entry(cache, &m.id) {
        Some(p) => cache[p] = m,
        None => cache.push(m),
    }
}

fn recall(cache: &Vec<MemoryMeta>, min_floor: f32, top_k: usize) -> Vec<MemoryMeta> {
    let req = ConstraintRecallRequest { min_floor_key: key(min_floor), top_k };
    recall_constraints(cache, &req).into_iter().map(|p| cache[p].clone()).collect()
}

#[test]
fn a01_is_constraint_boundary() {
    let mut m_below = from_text("x");
    m_below.floor_key = key(0.49);
    assert!(!m_below.is_constraint());
    let mut m_at = from_text("x");
    m_at.floor_key = key(0.5);
    assert!(m_at.is_constraint());
}

#[test]
fn a02_is_constraint_explicit_type() {
    let mut m = from_text("x");
    m.memory_type = MemoryType::Constraint;
    assert!(m.is_constraint());
}

#[test]
fn a03_constraint_request_default() {
    let req = ConstraintRecallRequest::default();
    assert_eq!(req.min_floor_key, key(0.5));
    assert_eq!(req.top_k, 50);
}

#[test]
fn b01_recall_constraints_respects_min_floor() {
    let mut cache = Vec::new();
    let t = 1700000000000000000_i64;
    put(&mut cache, make_constraint("rule-边界", t, vec!["world"], 0.5));
    put(&mut cache, make_constraint("rule-半永久", t, vec!["world"], 0.6));
    put(&mut cache, make_constraint("rule-永久", t, vec!["world"], 0.8));

    let result = recall(&cache, 0.7, 50);
    assert_eq!(result.len(), 1, "min_floor=0.7 应只返回 1 条，实际 {} 条", result.len());
    assert!(result.iter().all(|m| m.floor_key >= key(0.7)));

    let result = recall(&cache, 0.6, 50);
    assert_eq!(result.len(), 2, "min_floor=0.6 应返回 2 条，实际 {} 条", result.len());
    assert!(result.iter().all(|m| m.floor_key >= key(0.6)));

    let result = recall(&cache, 0.5, 50);
    assert_eq!(result.len(), 3, "min_floor=0.5 应返回 3 条，实际 {} 条", result.len());
}

#[test]
fn b02_recall_constraints_sorted_by_floor_desc() {
    let mut cache = Vec::new();
    let t = 1700000000000000000_i64;
    put(&mut cache, make_constraint("low", t, vec![], 0.5));
    put(&mut cache, make_constraint("high", t, vec![], 0.9));
    put(&mut cache, make_constraint("mid", t, vec![], 0.7));

    let result = recall(&cache, 0.5, 50);
    assert!(result.len() >= 2, "至少 2 条才能检查排序");
    assert!(result[0].floor_key >= result[1].floor_key, "必须 energy_floor DESC");
    if result.len() >= 3 {
        assert!(result[1].floor_key >= result[2].floor_key, "第二条必须 >= 第三条");
    }
    assert_eq!(result[0].floor_key, key(0.9), "永久记忆 floor=0.9 应排第一");
}

#[test]
fn b03_recall_constraints_top_k_limit() {
    let mut cache = Vec::new();
    let t = 1700000000000000000_i64;
    for i in 0..20 {
        put(&mut cache, make_constraint(&format!("rule-{i}"), t, vec![], 0.7));
    }
    let result = recall(&cache, 0.5, 5);
    assert_eq!(result.len(), 5);
}

#[test]
fn b04_recall_constraints_empty_store() {
    let cache: Vec<MemoryMeta> = Vec::new();
    let result = recall_constraints(&cache, &ConstraintRecallRequest::default());
    assert!(result.is_empty());
}

#[test]
fn b05_recall_constraints_excludes_narrative() {
    let mut cache = Vec::new();
    let t = 1700000000000000000_i64;
    put(&mut cache, make_narrative("叙事A", t, vec!["ch"]));
    put(&mut cache, make_constraint("规则B", t, vec!["world"], 0.7));
    let r = recall_constraints(&cache, &ConstraintRecallRequest::default());
    assert_eq!(r.len(), 1);
    assert_eq!(cache[r[0]].id, "规则B");
}

#[test]
fn b06_recall_constraints_with_explicit_type_no_floor() {
    let mut cache = Vec::new();
    let t = 1700000000000000000_i64;
    let mut m = from_text("显式类型无 floor");
    m.time_ns = t;
    m.memory_type = MemoryType::Constraint;
    m.floor_key = key(0.0);
    put(&mut cache, m);
    assert_eq!(recall(&cache, 0.0, 50).len(), 1, "min_floor=0.0 应返回显式 Constraint 类型");
    assert_eq!(recall(&cache, 0.5, 50).len(), 0, "min_floor=0.5 应过滤掉 floor=0.0 的约束");
}

#[test]
fn deep_05_constraint_mid_values() {
    let mut cache = Vec::new();
    let t = 1700000000000000000_i64;
    for &floor in &[0.0_f32, 0.49, 0.5, 0.51, 1.0] {
        put(&mut cache, make_constraint(&format!("f{floor}"), t, vec![], floor));
    }
    let result = recall(&cache, 0.5, 50);
    assert_eq!(result.len(), 3, "min_floor=0.5 → 3条");
    assert!(result[0].floor_key >= result[1].floor_key);
    assert!(result[1].floor_key >= result[2].floor_key);
    assert_eq!(recall(&cache, 0.0, 50).len(), 5);
}

#[test]
fn deep_14_energy_floor_exactly_at_boundary() {
    let mut cache = Vec::new();
    let t = 1700000000000000000_i64;
    put(&mut cache, make_constraint("exact", t, vec![], 0.7));
    assert_eq!(recall(&cache, 0.7, 50).len(), 1, "floor == min_floor 应被包含");
}

#[test]
fn constraint_order_is_stable_on_equal_floors() {
    let mut cache = Vec::new();
    put(&mut cache, make_constraint("first", 0, vec![], 0.7));
    put(&mut cache, make_constraint("top", 0, vec![], 0.9));
    put(&mut cache, make_constraint("second", 0, vec![], 0.7));
    let ids: Vec<String> = recall(&cache, 0.5, 50).into_iter().map(|m| m.id).collect();
    assert_eq!(ids, vec!["top", "first", "second"]);
    let ids: Vec<String> = recall(&cache, 0.5, 2).into_iter().map(|m| m.id).collect();
    assert_eq!(ids, vec!["top", "first"]);
}

#[test]
fn order_keys_follow_float_order() {
    assert_eq!(key(0.5), CONSTRAINT_FLOOR_KEY);
    assert_eq!(key(0.0), 0);
    assert_eq!(key(-0.0), 0);
    assert_eq!(energy_order_key(0x3F80_0000), 0x3F80_0000);
    assert_eq!(energy_order_key(0xBF80_0000), -0x3F80_0000);
    let xs = [-2.5_f32, -1.0, -0.1, 0.0, 0.1, 0.49, 0.5, 0.51, 1.0, 7.0];
    for w in xs.windows(2) {
        assert!(key(w[0]) < key(w[1]));
    }
}

#[test]
fn energy_range_keeps_cache_order_and_limit() {
    let mut cache = Vec::new();
    for (name, e) in [("low", 0.1_f32), ("mid", 0.5), ("high", 0.9), ("top", 1.0)] {
        let mut m = from_text(name);
        m.energy_key = key(e);
        put(&mut cache, m);
    }
    let r = energy_range(&cache, key(0.3), 10);
    assert_eq!(r, vec![1, 2, 3]);
    let r = energy_range(&cache, key(0.3), 2);
    assert_eq!(r, vec![1, 2]);
    let r = energy_range(&cache, key(1.0), 10);
    assert!(r.is_empty());
}
