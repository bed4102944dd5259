use std::collections::HashSet;
use taodb::model::{energy_order_key, MemoryMeta, MemoryType};
use taodb::recall::recall_sensory;
use taodb::sensory::find_entry;
use taodb::store::{add_sense_id, get_ids_by_senses, remove_sense_id};
use taodb::SensoryRecallRequest;

/// The store's cache and sense index, as the store keeps them.
struct Db {
    cache: Vec<MemoryMeta>,
    index: Vec<(String, Vec<String>)>,
}

impl Db {
    fn new() -> Self {
        Db { cache: Vec::new(), index: Vec::new() }
    }

    fn put(&mut self, m: &MemoryMeta) {
        for s in &m.senses {
            match self.index.iter().position(|(k, _)| k == s) {
                Some(p) => {
                    add_sense_id(&mut self.index[p].1, &m.id);
                }
                None => {
                    let mut ids = Vec::new();
                    add_sense_id(&mut ids, &m.id);
                    self.index.push((s.clone(), ids));
                }
            }
        }
        match find_entry(&self.cache, &m.id) {
            Some(p) => self.cache[p] = m.clone(),
            None => self.cache.push(m.clone()),
        }
    }

    fn update_sense_index(&mut self, m: &MemoryMeta) {
        for s in &m.senses {
            if let Some(p) = self.index.iter().position(|(k, _)| k == s) {
                add_sense_id(&mut self.index[p].1, &m.id);
            }
        }
    }

    fn forget(&mut self, id: &str) -> bool {
        let found = find_entry(&self.cache, id).is_some();
        if found {
            for (_, ids) in self.index.iter_mut() {
                remove_sense_id(ids, id);
            }
            self.cache.retain(|m| m.id != id);
        }
        found
    }

    fn lists(&self, senses: &[String]) -> Vec<Vec<String>> {
        senses
            .iter()
            .map(|s| {
                self.index
                    .iter()
                    .find(|(k, _)| k == s)
                    .map(|(_, ids)| ids.clone())
                    .unwrap_or_default()
            })
            .collect()
    }

    fn get_ids_by_senses(&self, senses: &[String], limit: usize) -> Vec<String> {
        get_ids_by_senses(&self.lists(senses), limit)
    }

    fn recall(&self, req: &SensoryRecallRequest) -> Vec<MemoryMeta> {
        let lists = self.lists(&req.senses);
        recall_sensory(&self.cache, req, &lists)
            .into_iter()
            .map(|p| self.cache[p].clone())
            .collect()
    }
}

fn make_narrative(text: &str, time_ns: i64, containers: Vec<&str>, senses: Vec<&str>) -> MemoryMeta {
    MemoryMeta {
        id: text.to_string(),
        time_ns,
        containers: containers.into_iter().map(String::from).collect(),
        senses: senses.into_iter().map(String::from).collect(),
        memory_type: MemoryType::Narrative,
        floor_key: 0,
        energy_key: 0,
        chapter: None,
    }
}

fn req(senses: Vec<&str>, top_k: usize, narrative_span_days: i64) -> SensoryRecallRequest {
    SensoryRecallRequest { senses: senses.into_iter().map(String::from).collect(), top_k, narrative_span_days }
}

fn count(m: &MemoryMeta, imps: &[&str]) -> usize {
    m.senses.iter().filter(|s| imps.contains(&s.as_str())).count()
}

const DAY: i64 = 86400 * 1_000_000_000;

#[test]
fn c01_sensory_end_to_end() {
    let mut db = Db::new();
    let t = 1700000000000000000_i64;
    let m1 = make_narrative("鼓沿木缝的涩", t, vec!["人物:桑安歌", "物件:鼓"], vec!["涩"]);
    let m2 = make_narrative("指甲刻痕的涩", t - DAY, vec!["人物:柏正则", "物件:凿"], vec!["涩"]);
    let m3 = make_narrative("掌根螺旋纹的涩", t - 2 * DAY, vec!["人物:桑安歌", "物件:老槐"], vec!["涩"]);
    for m in [&m1, &m2, &m3] {
        db.put(m);
        db.update_sense_index(m);
    }
    assert_eq!(db.recall(&req(vec!["涩"], 10, 0)).len(), 3);
}

#[test]
fn c02_sensory_cross_container() {
    let mut db = Db::new();
    let t = 1700000000000000000_i64;
    db.put(&make_narrative("声门下的颤", t, vec!["人物:桑安歌", "场景:邯郸"], vec!["颤"]));
    db.put(&make_narrative("凿下的颤", t - DAY, vec!["人物:柏正则", "场景:骊山"], vec!["颤"]));
    db.put(&make_narrative("指尖的颤", t - 2 * DAY, vec!["人物:葵儿", "场景:老槐院"], vec!["颤"]));
    for m in db.cache.clone() {
        db.update_sense_index(&m);
    }
    let result = db.recall(&req(vec!["颤"], 10, 0));
    let persons: HashSet<String> = result
        .iter()
        .flat_map(|m| m.containers.iter().filter(|c| c.starts_with("人物:")).cloned())
        .collect();
    assert_eq!(persons.len(), 3, "感官触发应跨 3 个人物召回，实际 {}", persons.len());
}

#[test]
fn c03_sensory_narrative_window_filter() {
    let mut db = Db::new();
    let now = 1700000000000000000_i64;
    db.put(&make_narrative("凉感A", now, vec![], vec!["凉"]));
    db.put(&make_narrative("凉感B", now - 5 * DAY, vec![], vec!["凉"]));
    db.put(&make_narrative("凉感C", now - 30 * DAY, vec![], vec!["凉"]));
    let result = db.recall(&req(vec!["凉"], 10, 10));
    assert_eq!(result.len(), 2, "span=10 应筛掉 30 天前");
}

#[test]
fn c04_sensory_multi_sense_sort() {
    let mut db = Db::new();
    let t = 1700000000000000000_i64;
    db.put(&make_narrative("only涩", t, vec![], vec!["涩"]));
    db.put(&make_narrative("涩凉", t - 100 * 1_000_000_000, vec![], vec!["涩", "凉"]));
    db.put(&make_narrative("涩凉颤", t - 200 * 1_000_000_000, vec![], vec!["涩", "凉", "颤"]));
    let imps = ["涩", "凉", "颤"];
    let result = db.recall(&req(imps.to_vec(), 10, 0));
    if result.len() >= 2 {
        let first = count(&result[0], &imps);
        let last = count(result.last().unwrap(), &imps);
        assert!(first >= last, "感官匹配数必须 DESC: first={} last={}", first, last);
    }
    let ids: Vec<&str> = result.iter().map(|m| m.id.as_str()).collect();
    assert_eq!(ids, vec!["涩凉颤", "涩凉", "only涩"]);
}

#[test]
fn c05_sensory_empty_senses() {
    let db = Db::new();
    assert!(db.recall(&SensoryRecallRequest::default()).is_empty());
}

#[test]
fn c06_sensory_top_k_limit() {
    let mut db = Db::new();
    let t = 1700000000000000000_i64;
    for i in 0..20 {
        let m = make_narrative(&format!("涩感{i}"), t - i * 1_000_000_000, vec![], vec!["涩"]);
        db.put(&m);
        db.update_sense_index(&m);
    }
    let result = db.recall(&req(vec!["涩"], 5, 0));
    assert!(result.len() <= 5, "top_k 硬限制：实际 {}", result.len());
    let ids: Vec<&str> = result.iter().map(|m| m.id.as_str()).collect();
    assert_eq!(ids, vec!["涩感0", "涩感1", "涩感2", "涩感3", "涩感4"]);
}

#[test]
fn c07_sensory_chinese_impression() {
    let mut db = Db::new();
    let t = 1700000000000000000_i64;
    db.put(&make_narrative("涩", t, vec![], vec!["涩"]));
    db.put(&make_narrative("颤", t, vec![], vec!["颤"]));
    db.put(&make_narrative("紧", t, vec![], vec!["紧"]));
    let result = db.recall(&req(vec!["涩", "紧"], 10, 0));
    let impressions: HashSet<String> = result.iter().flat_map(|m| m.senses.iter().cloned()).collect();
    assert!(impressions.contains("涩") || impressions.contains("紧"), "中文感官必须能匹配");
    assert_eq!(result.len(), 2);
}

#[test]
fn c08_sensory_nonexistent_impression() {
    let mut db = Db::new();
    let t = 1700000000000000000_i64;
    db.put(&make_narrative("X", t, vec![], vec!["涩"]));
    db.update_sense_index(&make_narrative("X", 0, vec![], vec![]));
    assert!(db.recall(&req(vec!["不存在的感官"], 10, 0)).is_empty());
}

#[test]
fn c09_sensory_excludes_constraint_via_floor() {
    let mut db = Db::new();
    let t = 1700000000000000000_i64;
    let mut c = make_narrative("规则带感官", t, vec!["world"], vec!["涩"]);
    c.memory_type = MemoryType::Constraint;
    c.floor_key = energy_order_key(0.7_f32.to_bits());
    db.put(&c);
    db.update_sense_index(&c);
    assert_eq!(db.recall(&req(vec!["涩"], 10, 0)).len(), 1);
}

#[test]
fn deep_03_empty_store_all_layers() {
    let db = Db::new();
    assert!(db.recall(&req(vec!["涩"], 10, 0)).is_empty());
    let c = taodb::recall_constraints(&db.cache, &taodb::ConstraintRecallRequest::default());
    assert!(c.is_empty());
    let n = taodb::recall::filter_narrative(&db.cache, &taodb::NarrativeRecallRequest::default(), 0, None);
    assert!(n.is_empty());
}

#[test]
fn deep_04_duplicate_sense_put_is_idempotent() {
    let mut db = Db::new();
    let t = 1700000000000000000_i64;
    let m = make_narrative("涩", t, vec![], vec!["涩"]);
    for _ in 0..5 {
        db.put(&m);
    }
    assert_eq!(db.recall(&req(vec!["涩"], 10, 0)).len(), 1, "重复 put 应幂等");
    assert_eq!(db.cache.len(), 1);
}

#[test]
fn deep_07_sensory_cross_impression_multi_match() {
    let mut db = Db::new();
    let t = 1700000000000000000_i64;
    db.put(&make_narrative("单涩", t, vec![], vec!["涩"]));
    db.put(&make_narrative("涩凉颤", t, vec![], vec!["涩", "凉", "颤"]));
    db.put(&make_narrative("涩凉", t, vec![], vec!["涩", "凉"]));
    let imps = ["涩", "凉", "颤"];
    let result = db.recall(&req(imps.to_vec(), 10, 0));
    assert_eq!(result.len(), 3);
    assert!(count(&result[0], &imps) >= count(&result[2], &imps), "多感官匹配数 DESC");
}

#[test]
fn deep_08_forget_cleans_all_traces() {
    let mut db = Db::new();
    let t = 1700000000000000000_i64;
    let m = make_narrative("X", t, vec![], vec!["涩"]);
    db.put(&m);
    assert!(db.forget("X"));
    assert!(find_entry(&db.cache, "X").is_none(), "memory 表应删除");
    let result = db.recall(&req(vec!["涩"], 10, 0));
    assert!(result.iter().all(|r| r.id != "X"), "感官索引不应残留死 ID");
}

#[test]
fn deep_10_large_sense_index_recovery() {
    let mut db = Db::new();
    let t = 1700000000000000000_i64;
    let impressions: Vec<String> = (0..100).map(|i| format!("感{}", i)).collect();
    for imp in &impressions {
        db.put(&make_narrative(imp, t, vec![], vec![imp.as_str()]));
    }
    for imp in impressions.iter().take(20) {
        let result = db.recall(&req(vec![imp.as_str()], 10, 0));
        assert_eq!(result.len(), 1, "感官'{}'应只召回1条", imp);
    }
}

#[test]
fn deep_15_sense_index_with_forget_and_reput() {
    let mut db = Db::new();
    let t = 1700000000000000000_i64;
    let m1 = make_narrative("旧涩", t, vec![], vec!["涩"]);
    db.put(&m1);
    db.forget("旧涩");
    let m2 = make_narrative("新涩", t, vec![], vec!["涩"]);
    db.put(&m2);
    let result = db.recall(&req(vec!["涩"], 10, 0));
    assert_eq!(result.len(), 1, "forget后re-put应只返回新记忆");
    assert_eq!(result[0].id, "新涩", "应返回新记忆而非旧记忆");
}

#[test]
fn e03_sense_index_idempotent() {
    let mut db = Db::new();
    let t = 1700000000000000000_i64;
    let m = make_narrative("涩", t, vec![], vec!["涩"]);
    db.put(&m);
    db.update_sense_index(&m);
    db.update_sense_index(&m);
    db.update_sense_index(&m);
    let result = db.recall(&req(vec!["涩"], 10, 0));
    assert_eq!(result.len(), 1, "update_sense_index 必须幂等，实际返回 {}", result.len());
    assert_eq!(db.index[0].1, vec!["涩".to_string()]);
}

#[test]
fn e04_sense_index_leftover_after_forget() {
    let mut db = Db::new();
    let t = 1700000000000000000_i64;
    let m = make_narrative("凉感X", t, vec![], vec!["凉"]);
    db.put(&m);
    db.update_sense_index(&m);
    assert!(db.forget("凉感X"));
    let ids_in_index = db.get_ids_by_senses(&["凉".to_string()], 100);
    assert!(ids_in_index.is_empty(), "forget 应清空感官索引中的死 ID，实际残留 {:?}", ids_in_index);
}

#[test]
fn e05_put_then_update_sense_index_atomic() {
    let mut db = Db::new();
    let t = 1700000000000000000_i64;
    let m = make_narrative("x", t, vec![], vec!["涩"]);
    db.put(&m);
    db.update_sense_index(&m);
    assert_eq!(db.recall(&req(vec!["涩"], 10, 0)).len(), 1);
}

#[test]
fn h04_recall_sensory_time_proximity_sort() {
    let mut db = Db::new();
    let anchor = 1700000000000000000_i64;
    db.put(&make_narrative("近", anchor, vec![], vec!["涩", "凉"]));
    db.put(&make_narrative("远", anchor - 100 * DAY, vec![], vec!["涩", "凉"]));
    let result = db.recall(&req(vec!["涩", "凉"], 10, 0));
    assert!(result[0].id == "近", "时间邻接 DESC 应实现");
}

#[test]
fn i02_bulk_500_memories_recall() {
    let mut db = Db::new();
    let t = 1700000000000000000_i64;
    let impressions = ["涩", "凉", "颤", "跳", "紧"];
    for i in 0..500 {
        let imp = impressions[i % 5];
        let m = make_narrative(&format!("m{i}"), t - i as i64 * DAY, vec![], vec![imp]);
        db.put(&m);
        db.update_sense_index(&m);
    }
    let result = db.recall(&req(vec!["涩"], 10, 0));
    assert!(result.len() <= 10, "top_k=10 必须硬限制");
    assert!(!result.is_empty(), "应至少召回 1 条涩感");
    assert_eq!(result[0].id, "m0");
    assert_eq!(result[9].id, "m45");
}

#[test]
fn j02_sensory_recall_after_store_put() {
    let mut db = Db::new();
    let t = 1700000000000000000_i64;
    let mem = make_narrative("喉咙发涩", t, vec!["人物:桑安歌"], vec!["涩", "凉"]);
    db.put(&mem);
    let result = db.recall(&req(vec!["涩"], 5, 0));
    assert_eq!(result.len(), 1, "感官索引写入后必须能召回");
    assert_eq!(result[0].senses[0], "涩");
}

#[test]
fn k01_sensory_time_proximity_strict() {
    let mut db = Db::new();
    let anchor = 1700000000000000000_i64;
    let times = [0_i64, -10, -30, -100, -500];
    for (i, days) in times.iter().enumerate() {
        db.put(&make_narrative(&format!("m{i}"), anchor + days * DAY, vec![], vec!["涩", "凉"]));
        db.update_sense_index(&make_narrative(&format!("m{i}"), 0, vec![], vec![]));
    }
    let result = db.recall(&req(vec!["涩", "凉"], 10, 0));
    assert_eq!(result[0].id, "m0", "时间邻接必须作为二级排序键，时间最近的应排第一");
    let ids: Vec<&str> = result.iter().map(|m| m.id.as_str()).collect();
    assert_eq!(ids, vec!["m0", "m1", "m2", "m3", "m4"]);
}

#[test]
fn sensory_ranks_every_candidate_before_cutting() {
    let mut db = Db::new();
    // The newest memory is met last; it is ranked all the same.
    for i in 0..6 {
        db.put(&make_narrative(&format!("old{i}"), i, vec![], vec!["涩"]));
    }
    db.put(&make_narrative("newest", 1000, vec![], vec!["涩"]));
    let ids: Vec<String> = db.recall(&req(vec!["涩"], 2, 0)).into_iter().map(|m| m.id).collect();
    assert_eq!(ids, vec!["newest", "old5"]);

    let mut db = Db::new();
    let t = 1700000000000000000_i64;
    db.put(&make_narrative("m1", t, vec![], vec!["a"]));
    db.put(&make_narrative("m2", t, vec![], vec!["a"]));
    db.put(&make_narrative("m3", t, vec![], vec!["a", "b"]));
    let ids: Vec<String> = db.recall(&req(vec!["a", "b"], 1, 0)).into_iter().map(|m| m.id).collect();
    assert_eq!(ids, vec!["m3"]);
}

#[test]
fn sense_ids_read_per_impression_are_capped() {
    let mut list = Vec::new();
    for i in 0..150 {
        add_sense_id(&mut list, &format!("id{i}"));
    }
    let firsts = taodb::store::first_distinct_ids(&list, 100);
    assert_eq!(firsts.len(), 100);
    assert_eq!(firsts[99], "id99");
    let both = get_ids_by_senses(&vec![vec!["a".to_string(), "b".to_string()], vec!["b".to_string(), "c".to_string()]], 10);
    assert_eq!(both, vec!["a", "b", "c"]);
    let capped = get_ids_by_senses(&vec![vec!["a".to_string(), "b".to_string(), "c".to_string()]], 2);
    assert_eq!(capped, vec!["a", "b"]);
}

#[test]
fn add_and_remove_sense_ids() {
    let mut ids = vec!["a".to_string(), "b".to_string()];
    assert!(!add_sense_id(&mut ids, "a"));
    assert_eq!(ids, vec!["a", "b"]);
    assert!(add_sense_id(&mut ids, "c"));
    assert_eq!(ids, vec!["a", "b", "c"]);
    let mut dup = vec!["x".to_string(), "y".to_string(), "x".to_string()];
    assert!(remove_sense_id(&mut dup, "x"));
    assert_eq!(dup, vec!["y"]);
    assert!(!remove_sense_id(&mut dup, "z"));
    assert_eq!(dup, vec!["y"]);
}

#[test]
fn id_lists_are_read_and_written_with_bincode() {
    let ids = vec!["a".to_string(), "b".to_string()];
    let bytes = taodb::store::encode_id_list(&ids).unwrap();
    assert_eq!(bytes, bincode::serialize(&ids).unwrap());
    assert_eq!(taodb::store::stored_id_list(Some(&bytes)), ids);
    assert!(taodb::store::stored_id_list(None).is_empty());
    assert!(taodb::store::stored_id_list(Some(&[1, 2, 3])).is_empty());
    assert_eq!(taodb::store::id_list_without(&bytes, "a"), Some(vec!["b".to_string()]));
    assert_eq!(taodb::store::id_list_without(&bytes, "z"), None);
    assert_eq!(taodb::store::id_list_without(&[1, 2, 3], "a"), None);
}
