use taodb::model::{MemoryMeta, MemoryType};
use taodb::store::{
    container_distribution, cut_is_ok, pick_container, derive_time_ns_from_containers, first_time_number, fuzzy_cut_is_ok,
    fuzzy_match_container, indexed_recent, latest_time, parse_chapter_number, recent, recent_containers,
    time_span, try_fuzzy_match_container, window_ids, CHAPTER_BASE_NS, DAY_NS,
};
use taodb::timeline::{timeline_end, timeline_key, timeline_start};

fn mem(id: &str, time_ns: i64, containers: Vec<&str>) -> MemoryMeta {
    MemoryMeta {
        id: id.to_string(),
        time_ns,
        containers: containers.into_iter().map(String::from).collect(),
        senses: vec![],
        memory_type: MemoryType::Narrative,
        floor_key: 0,
        energy_key: 0,
        chapter: None,
    }
}

fn strings(v: Vec<&str>) -> Vec<String> {
    v.into_iter().map(String::from).collect()
}

#[test]
fn chapter_numbers_are_parsed_from_containers() {
    assert_eq!(parse_chapter_number("第148回"), Some(148));
    assert_eq!(parse_chapter_number("第148回_无声张嘴"), Some(148));
    assert_eq!(parse_chapter_number("卷二/第152回"), Some(152));
    assert_eq!(parse_chapter_number("第回"), None);
    assert_eq!(parse_chapter_number("第12"), None);
    assert_eq!(parse_chapter_number("第12章"), None);
    assert_eq!(parse_chapter_number("人物:桑安歌"), None);
    assert_eq!(parse_chapter_number("第99999999999999999999回"), None);
    assert_eq!(first_time_number(&strings(vec!["人物:桑安歌", "第3回", "第5回"])), Some(3));
}

#[test]
fn chapter_time_follows_the_chapter_clock() {
    assert_eq!(derive_time_ns_from_containers(&strings(vec!["第1回"])), Some(CHAPTER_BASE_NS));
    assert_eq!(
        derive_time_ns_from_containers(&strings(vec!["场景:邯郸", "第148回_无声张嘴"])),
        Some(1700000000000000000 + 147 * 86400 * 1_000_000_000)
    );
    assert_eq!(derive_time_ns_from_containers(&strings(vec!["人物:桑安歌"])), None);
    assert_eq!(DAY_NS, 86400 * 1_000_000_000);
    let a = derive_time_ns_from_containers(&strings(vec!["第10回"])).unwrap();
    let b = derive_time_ns_from_containers(&strings(vec!["第11回"])).unwrap();
    assert_eq!(b - a, DAY_NS);
}

#[test]
fn timeline_keys_order_by_time_then_id() {
    let k1 = timeline_key(-5, "B");
    let k2 = timeline_key(3, "A");
    let k3 = timeline_key(3, "B");
    assert_eq!(k2.len(), 9);
    assert_eq!(&k2[..8], &((3_i64 as u64) ^ (1 << 63)).to_be_bytes());
    assert_eq!(k2[8], b'A');
    assert!(k2 < k3);
    assert!(timeline_start(3) <= k2 && k3 < timeline_end(3));
    assert!(k2 < timeline_end(3));
    assert!(timeline_start(4) > k3);
    assert_eq!(timeline_start(7), ((7_i64 as u64) ^ (1 << 63)).to_be_bytes().to_vec());
    assert_eq!(timeline_end(7).len(), 9);
    assert_eq!(timeline_end(7)[8], 0xff);
    assert!(timeline_start(0) <= timeline_key(0, "01ARZ3NDEKTSV4RRFFQ69G5FAV"));
    assert!(k1 < k2);
    assert!(timeline_key(-1, "z") < timeline_key(0, "A"));
    assert!(timeline_key(i64::MIN, "z") < timeline_key(i64::MAX, "A"));
    assert!(timeline_start(-1) <= timeline_key(-1, "A") && timeline_key(0, "A") < timeline_end(1));
    assert!(timeline_key(-2, "A") < timeline_start(-1));
}

#[test]
fn container_distribution_counts_and_latest_times() {
    let cache = vec![
        mem("a", 10, vec!["人物:桑安歌", "场景:邯郸"]),
        mem("b", 30, vec!["人物:桑安歌"]),
        mem("c", 20, vec!["人物:桑安歌", "场景:邯郸"]),
        mem("d", 5, vec!["物件:鼓"]),
    ];
    let stats = container_distribution(&cache);
    assert_eq!(stats.len(), 3);
    assert_eq!(stats[0].name, "人物:桑安歌");
    assert_eq!(stats[0].count, 3);
    assert_eq!(stats[0].latest_time_ns, 30);
    assert_eq!(stats[1].name, "场景:邯郸");
    assert_eq!(stats[1].count, 2);
    assert_eq!(stats[1].latest_time_ns, 20);
    assert_eq!(stats[2].name, "物件:鼓");
    assert_eq!(stats[2].count, 1);
    assert_eq!(stats[2].latest_time_ns, 5);
}

#[test]
fn container_distribution_latest_time_starts_at_zero() {
    let cache = vec![mem("a", -10, vec!["past"])];
    let stats = container_distribution(&cache);
    assert_eq!(stats.len(), 1);
    assert_eq!(stats[0].latest_time_ns, 0);
}

#[test]
fn recent_containers_newest_first_each_once() {
    let cache = vec![
        mem("a", 1, vec!["x", "y"]),
        mem("b", 2, vec!["z"]),
        mem("c", 3, vec!["y", "w"]),
    ];
    assert_eq!(recent_containers(&cache, 10), strings(vec!["y", "w", "z", "x"]));
    assert_eq!(recent_containers(&cache, 2), strings(vec!["y", "w", "z"]));
    assert!(recent_containers(&vec![], 10).is_empty());
}

#[test]
fn recent_and_indexed_recent_take_the_tail() {
    let v = vec![1, 2, 3, 4, 5];
    assert_eq!(recent(&v, 2), vec![4, 5]);
    assert_eq!(recent(&v, 9), vec![1, 2, 3, 4, 5]);
    assert_eq!(indexed_recent(&v, 2), vec![5, 4]);
    assert_eq!(indexed_recent(&v, 9), vec![5, 4, 3, 2, 1]);
    assert!(indexed_recent(&Vec::<i32>::new(), 3).is_empty());
}

#[test]
fn time_span_and_latest_time() {
    let cache = vec![mem("a", 30, vec![]), mem("b", -7, vec![]), mem("c", 12, vec![])];
    assert_eq!(time_span(&cache), Some((-7, 30)));
    assert_eq!(latest_time(&cache), 30);
    assert_eq!(time_span(&vec![]), None);
    assert_eq!(latest_time(&vec![]), 0);
}

#[test]
fn fuzzy_match_normalizes_known_containers() {
    let cache = vec![
        mem("a", 1, vec!["feature:auth", "人物:桑安歌"]),
        mem("b", 2, vec!["Module:Core"]),
    ];
    assert_eq!(fuzzy_match_container(&cache, "feature:auth"), Some("feature:auth".to_string()));
    assert_eq!(fuzzy_match_container(&cache, "feature:Auth"), Some("feature:auth".to_string()));
    assert_eq!(fuzzy_match_container(&cache, "module:core"), Some("Module:Core".to_string()));
    assert_eq!(fuzzy_match_container(&cache, "人物:安歌"), Some("人物:桑安歌".to_string()));
    assert_eq!(fuzzy_match_container(&cache, "人物:柏正则"), None);
    assert_eq!(fuzzy_match_container(&cache, "auth"), None);
    assert_eq!(try_fuzzy_match_container(&cache, "feature:Au"), Some(Some("feature:auth".to_string())));
}

#[test]
fn fuzzy_cut_is_checked_before_matching() {
    assert!(fuzzy_cut_is_ok("人物:桑安歌"));
    assert!(fuzzy_cut_is_ok("no-tag"));
    // 'ẞ' takes three bytes and its lowercase form two, so the cut falls inside 'é'.
    assert!(!fuzzy_cut_is_ok("ẞ:é"));
    assert_eq!(try_fuzzy_match_container(&vec![], "ẞ:é"), None);
}

#[test]
fn picking_uses_the_given_lowercase_forms() {
    let known = strings(vec!["Feature:Auth", "人物:桑安歌"]);
    let lowered = strings(vec!["feature:auth", "人物:桑安歌"]);
    let pick = |t: &str, lt: &str| pick_container(&known, &lowered, t, lt);
    assert_eq!(pick("Feature:Auth", "feature:auth"), Some("Feature:Auth".to_string()));
    assert_eq!(pick("FEATURE:AUTH", "feature:auth"), Some("Feature:Auth".to_string()));
    assert_eq!(pick("X", "人物:桑安歌"), Some("人物:桑安歌".to_string()));
    assert_eq!(pick("人物:安", "人物:安"), Some("人物:桑安歌".to_string()));
    assert_eq!(pick("Feature:zz", "feature:zz"), None);
    assert_eq!(pick("plain", "plain"), None);
    assert!(!cut_is_ok("ẞ:é", "ß:é"));
    assert!(cut_is_ok("a:b", "a:b"));
    assert!(cut_is_ok("plain", "x"));
}

#[test]
fn recall_windows_hold_seeds_then_their_neighbours() {
    let seeds = strings(vec!["s1", "s2", "gone"]);
    let found = strings(vec!["s1", "s2"]);
    let windows = vec![strings(vec!["a", "s2", "b"]), strings(vec!["b", "c", "gone"])];
    assert_eq!(window_ids(&found, &seeds, &windows, 4), strings(vec!["s1", "s2", "a", "b"]));
    assert_eq!(window_ids(&found, &seeds, &windows, 10), strings(vec!["s1", "s2", "a", "b", "c"]));
    assert_eq!(window_ids(&found, &seeds, &windows, 2), strings(vec!["s1", "s2"]));
    assert_eq!(window_ids(&found, &seeds, &windows, 1), strings(vec!["s1", "s2"]));
    assert!(window_ids(&vec![], &seeds, &vec![], 3).is_empty());
}

#[test]
fn sprint_and_day_tags_name_narrative_time() {
    let day = 86400 * 1_000_000_000_i64;
    assert_eq!(derive_time_ns_from_containers(&strings(vec!["sprint-5"])), Some(CHAPTER_BASE_NS + 4 * day));
    assert_eq!(derive_time_ns_from_containers(&strings(vec!["module:auth", "day-30"])), Some(CHAPTER_BASE_NS + 29 * day));
    assert_eq!(derive_time_ns_from_containers(&strings(vec!["sprint-2", "第3回"])), Some(CHAPTER_BASE_NS + day));
    for none in ["sprint-", "sprint-5a", "Sprint-5", "sprint:2025-Q1", "day-x", "sprint-99999999999999999999"] {
        assert_eq!(derive_time_ns_from_containers(&strings(vec![none])), None, "{none}");
    }
    assert_eq!(taodb::store::parse_tag_number("day-007"), Some(7));
    assert_eq!(taodb::store::parse_time_number("卷二/第152回"), Some(152));
}
