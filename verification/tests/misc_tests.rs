use engine_core::ecs::event::{EventBus, EventReader};
use engine_core::ecs::event_logger::{EventLogger, LoggedEvent};
use engine_core::ecs::time::{Season, TimeOfDay};
use engine_core::json_text::{assets_by_key, read_json};
use engine_core::loot::{roll_drop, LootEntry, LootError, LootTableRegistry};
use engine_core::json::Json;

fn entry(id: &str, weight: u32, min_count: u32, max_count: u32) -> LootEntry {
    LootEntry { item_id: id.to_string(), weight, min_count, max_count }
}

#[test]
fn loot_roll_picks_the_only_weighted_entry() {
    let mut reg = LootTableRegistry::new();
    reg.define_table("chest", vec![entry("gold", 1, 2, 2)]).unwrap();
    for _ in 0..20 {
        let drop = reg.roll("chest").unwrap();
        assert_eq!(drop, vec![("gold".to_string(), 2)]);
    }
}

#[test]
fn loot_roll_counts_in_range() {
    let mut reg = LootTableRegistry::new();
    reg.define_table("bag", vec![entry("gem", 3, 1, 4), entry("coin", 5, 10, 12)]).unwrap();
    for _ in 0..50 {
        let drop = reg.roll("bag").unwrap();
        assert_eq!(drop.len(), 1);
        let (id, n) = &drop[0];
        match id.as_str() {
            "gem" => assert!((1..=4).contains(n)),
            "coin" => assert!((10..=12).contains(n)),
            other => panic!("unexpected item {other}"),
        }
    }
}

#[test]
fn loot_errors() {
    let mut reg = LootTableRegistry::new();
    match reg.roll("none") {
        Err(LootError::TableNotFound(n)) => assert_eq!(n, "none"),
        other => panic!("unexpected {:?}", other),
    }
    reg.define_table("empty", vec![]).unwrap();
    match reg.roll("empty") {
        Err(e) => assert_eq!(e.message(), "loot table 'empty' has no entries"),
        Ok(v) => panic!("unexpected {:?}", v),
    }
    match reg.define_table("bad", vec![entry("a", 1, 1, 1), entry("b", 0, 1, 1)]) {
        Err(e) => assert_eq!(e.message(), "invalid loot entry: entry 'b' has zero weight"),
        Ok(()) => panic!("accepted a zero weight"),
    }
    match reg.define_table("bad", vec![entry("c", 1, 0, 1)]) {
        Err(e) => assert_eq!(e.message(), "invalid loot entry: entry 'c' has zero count"),
        Ok(()) => panic!("accepted a zero count"),
    }
    match reg.define_table("bad", vec![entry("d", 1, 3, 2)]) {
        Err(e) => assert_eq!(e.message(), "invalid loot entry: entry 'd' has min_count > max_count"),
        Ok(()) => panic!("accepted min above max"),
    }
    assert!(!reg.has_table("bad"));
    assert!(reg.has_table("empty"));
}

#[test]
fn seasons_follow_days() {
    assert_eq!(Season::from_day(0), Season::Spring);
    assert_eq!(Season::from_day(29), Season::Spring);
    assert_eq!(Season::from_day(30), Season::Summer);
    assert_eq!(Season::from_day(60), Season::Autumn);
    assert_eq!(Season::from_day(119), Season::Winter);
    assert_eq!(Season::from_day(120), Season::Spring);
    assert_eq!(Season::from_day(125), Season::from_day(5));
    assert_eq!(Season::Autumn.to_string(), "autumn");
}

#[test]
fn clock_wraps_minutes_hours_and_days() {
    let mut t = TimeOfDay::new();
    for _ in 0..60 {
        t.advance();
    }
    assert_eq!((t.day, t.hour, t.minute), (0, 1, 0));
    for _ in 0..(23 * 60 + 59) {
        t.advance();
    }
    assert_eq!((t.day, t.hour, t.minute), (1, 0, 59));
    t.advance();
    assert_eq!((t.day, t.hour, t.minute), (1, 1, 0));
}

#[test]
fn events_live_one_frame() {
    let mut bus: EventBus<u32, fn(&u32)> = EventBus::new();
    bus.send(1);
    bus.send(2);
    assert!(bus.last_events().is_empty());
    bus.update();
    assert_eq!(bus.last_events().iter().copied().collect::<Vec<u32>>(), vec![1, 2]);
    bus.update();
    assert!(bus.last_events().is_empty());
}

#[test]
fn reader_reads_each_event_once() {
    let mut bus: EventBus<u32, fn(&u32)> = EventBus::new();
    let mut reader = EventReader::new();
    bus.send(7);
    bus.update();
    let first: Vec<u32> = reader.read(&bus).into_iter().copied().collect();
    assert_eq!(first, vec![7]);
    let again: Vec<u32> = reader.read(&bus).into_iter().copied().collect();
    assert!(again.is_empty());
    let all: Vec<u32> = reader.read_all(&bus).into_iter().copied().collect();
    assert_eq!(all, vec![7]);
}

fn note(_: &u32) {}

#[test]
fn subscribers_and_try_recv() {
    let mut bus: EventBus<u32, fn(&u32)> = EventBus::new();
    let a = bus.subscribe(note);
    let b = bus.subscribe(note);
    assert_eq!((a, b), (0, 1));
    assert_eq!(bus.subscriber_count(), 2);
    assert!(bus.unsubscribe(a));
    assert!(!bus.unsubscribe(a));
    assert_eq!(bus.subscriber_count(), 1);
    bus.send(3);
    bus.send(4);
    assert_eq!(bus.try_recv(), Some(3));
    assert_eq!(bus.try_recv(), Some(4));
    assert_eq!(bus.try_recv(), None);
}

#[test]
fn logger_keeps_order_and_replays() {
    let mut log: EventLogger<u32> = EventLogger::new();
    log.log("a", 1);
    log.log("b", 2);
    let all = log.all();
    assert_eq!(all.len(), 2);
    assert_eq!(all[0].event_type, "a");
    assert_eq!(all[1].payload, 2);
    let mut seen: Vec<String> = Vec::new();
    log.replay_into(|e: &LoggedEvent<u32>| seen.push(e.event_type.clone()));
    assert_eq!(seen, vec!["a".to_string(), "b".to_string()]);
    log.clear();
    assert!(log.all().is_empty());
}

#[test]
fn roll_drop_picks_by_cumulative_weight() {
    let entries = vec![entry("a", 2, 1, 1), entry("b", 3, 1, 5)];
    assert_eq!(roll_drop(&entries, 0, 9), Some(("a".to_string(), 1)));
    assert_eq!(roll_drop(&entries, 1, 9), Some(("a".to_string(), 1)));
    assert_eq!(roll_drop(&entries, 2, 4), Some(("b".to_string(), 4)));
    assert_eq!(roll_drop(&entries, 4, 3), Some(("b".to_string(), 3)));
    assert_eq!(roll_drop(&entries, 5, 3), None);
}

#[test]
fn assets_by_key_keys_last_wins_and_errors() {
    let texts = vec![
        r#"{"kind": "wood", "v": 1}"#.to_string(),
        r#"{"name": "no kind"}"#.to_string(),
        r#"{"kind": "wood", "v": 2}"#.to_string(),
        r#"{"kind": "stone"}"#.to_string(),
    ];
    let table = assets_by_key(&texts, "kind").unwrap();
    assert_eq!(table.len(), 2);
    assert_eq!(table.get(&"wood".to_string()).unwrap().get_i64("v"), Some(2));
    let bad = vec![r#"{"kind": "x"}"#.to_string(), "{".to_string()];
    assert!(assets_by_key(&bad, "kind").is_err());
    assert!(read_json("[1, 2]").unwrap().as_array().is_some());
}

#[test]
fn merging_objects_keeps_the_keys_of_both() {
    let base = Json::Object(vec![
        ("a".to_string(), Json::Int(1)),
        ("nested".to_string(), Json::Object(vec![("x".to_string(), Json::Int(1))])),
    ]);
    let patch = Json::Object(vec![
        ("b".to_string(), Json::Int(2)),
        ("nested".to_string(), Json::Object(vec![("y".to_string(), Json::Int(2))])),
    ]);
    let merged = engine_core::json::merge_json(&base, &patch);
    match &merged {
        Json::Object(entries) => {
            let mut keys: Vec<&str> = entries.iter().map(|(k, _)| k.as_str()).collect();
            keys.sort();
            assert_eq!(keys, vec!["a", "b", "nested"]);
        },
        _ => panic!("merge of two objects is an object"),
    }
    assert_eq!(merged.get("nested").and_then(|n| n.get("x")), Some(&Json::Int(1)));
    assert_eq!(merged.get("nested").and_then(|n| n.get("y")), Some(&Json::Int(2)));
}

#[test]
fn logged_event_with_timestamp_keeps_the_given_time() {
    let e = LoggedEvent::with_timestamp(1234, "hit", 7u32);
    assert_eq!(e.timestamp, 1234);
    assert_eq!(e.event_type, "hit");
    assert_eq!(e.payload, 7);
}

#[test]
fn written_json_reads_back() {
    let v = Json::Object(vec![("a".to_string(), Json::Int(1)), ("b".to_string(), Json::Array(vec![Json::Bool(true)]))]);
    let text = engine_core::json_text::write_json(&v);
    assert_eq!(text, "{\"a\":1,\"b\":[true]}");
    assert_eq!(read_json(&text), Ok(v));
}

static CALLS: std::sync::atomic::AtomicUsize = std::sync::atomic::AtomicUsize::new(0);

fn count_call(_: &u32) {
    CALLS.fetch_add(1, std::sync::atomic::Ordering::SeqCst);
}

#[test]
fn sending_calls_every_subscriber() {
    let mut bus: EventBus<u32, fn(&u32)> = EventBus::new();
    bus.subscribe(count_call);
    bus.subscribe(count_call);
    let before = CALLS.load(std::sync::atomic::Ordering::SeqCst);
    bus.send(5);
    assert_eq!(CALLS.load(std::sync::atomic::Ordering::SeqCst), before + 2);
    assert_eq!(bus.try_recv(), Some(5));
}
