use taodb::memorize::{memorize_notes, memorized_time, normalize_containers, TimeSource, IMPORTANT_FLOOR_KEY};
use taodb::text::{decimal_text, int_decimal_text};
use taodb::model::{memory_type_for, MemoryMeta, MemoryType, CONSTRAINT_FLOOR_KEY};

fn strings(v: Vec<&str>) -> Vec<String> {
    v.into_iter().map(String::from).collect()
}

fn mem(id: &str, containers: Vec<&str>) -> MemoryMeta {
    MemoryMeta {
        id: id.to_string(),
        time_ns: 0,
        containers: strings(containers),
        senses: vec![],
        memory_type: MemoryType::Narrative,
        floor_key: 0,
        energy_key: 0,
        chapter: None,
    }
}

#[test]
fn memorized_time_prefers_given_then_chapter_then_clock() {
    let cs = strings(vec!["场景:邯郸", "第3回"]);
    assert_eq!(memorized_time(Some(42), Some(&cs), 7), (42, TimeSource::Given));
    assert_eq!(
        memorized_time(None, Some(&cs), 7),
        (1700000000000000000 + 2 * 86400 * 1_000_000_000, TimeSource::Chapter)
    );
    assert_eq!(memorized_time(None, Some(&strings(vec!["人物:桑安歌"])), 7), (7, TimeSource::WallClock));
    assert_eq!(memorized_time(None, None, 7), (7, TimeSource::WallClock));
}

#[test]
fn containers_are_normalized_against_known_ones() {
    let cache = vec![mem("a", vec!["feature:auth", "人物:桑安歌"])];
    let raw = strings(vec!["feature:Auth", "人物:安歌", "新:标签", "plain"]);
    let out = normalize_containers(&cache, &raw).unwrap();
    assert_eq!(out, strings(vec!["feature:auth", "人物:桑安歌", "新:标签", "plain"]));
    assert_eq!(normalize_containers(&cache, &strings(vec!["ẞ:é"])), None);
    assert_eq!(normalize_containers(&vec![], &vec![]), Some(vec![]));
}

#[test]
fn memorized_layer_follows_request_then_floor() {
    assert_eq!(memory_type_for(Some("constraint"), 0), MemoryType::Constraint);
    assert_eq!(memory_type_for(Some("narrative"), CONSTRAINT_FLOOR_KEY), MemoryType::Narrative);
    assert_eq!(memory_type_for(Some("other"), CONSTRAINT_FLOOR_KEY), MemoryType::Narrative);
    assert_eq!(memory_type_for(None, CONSTRAINT_FLOOR_KEY), MemoryType::Constraint);
    assert_eq!(memory_type_for(None, CONSTRAINT_FLOOR_KEY - 1), MemoryType::Narrative);
}

fn owned(v: &[&str]) -> Vec<String> {
    v.iter().map(|s| s.to_string()).collect()
}

#[test]
fn memorize_notes_report_clock_time_and_derived_time() {
    let (w, s) = memorize_notes(TimeSource::WallClock, 7, &vec![], &vec![], true, 0);
    assert_eq!(w, owned(&["time_ns 未设置，使用墙上时钟时间戳。如有叙事时间请传入 time_ns。"]));
    assert!(s.is_empty());

    let (w, s) = memorize_notes(TimeSource::Given, 7, &vec![], &vec![], true, IMPORTANT_FLOOR_KEY);
    assert!(w.is_empty());
    assert!(s.is_empty());

    let t: i64 = 1700000000000000000 + 2 * 86400 * 1_000_000_000;
    let (w, s) = memorize_notes(TimeSource::Chapter, t, &vec![], &vec![], true, 0);
    assert!(w.is_empty());
    assert_eq!(s, vec![format!("time_ns 已从 containers 自动推导: {}", t)]);
}

#[test]
fn memorize_notes_name_each_renamed_container_and_missing_body_state() {
    let raw = owned(&["feature:Auth", "plain", "人物:安歌"]);
    let norm = owned(&["feature:auth", "plain", "人物:桑安歌"]);
    let (w, s) = memorize_notes(TimeSource::Given, 0, &raw, &norm, false, IMPORTANT_FLOOR_KEY);
    assert!(w.is_empty());
    assert_eq!(
        s,
        owned(&[
            "container 'feature:Auth' 已规范化为 'feature:auth'",
            "container '人物:安歌' 已规范化为 '人物:桑安歌'",
            "建议添加 body_state (JSON) 以激活'人'维度召回",
        ])
    );
    // a floor below 0.3 asks for no body state
    let (_, s) = memorize_notes(TimeSource::Given, 0, &raw, &raw, false, IMPORTANT_FLOOR_KEY - 1);
    assert!(s.is_empty());
    // the key of 0.3 is the floor from which a memory is important
    assert_eq!(IMPORTANT_FLOOR_KEY, 0.3f32.to_bits() as i64);
}

#[test]
fn decimal_text_writes_integers_in_base_ten() {
    assert_eq!(decimal_text(0), "0");
    assert_eq!(decimal_text(u64::MAX), "18446744073709551615");
    assert_eq!(int_decimal_text(0), "0");
    assert_eq!(int_decimal_text(-42), "-42");
    assert_eq!(int_decimal_text(i64::MIN), "-9223372036854775808");
    assert_eq!(int_decimal_text(i64::MAX), "9223372036854775807");
}
