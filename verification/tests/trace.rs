use hassan::trace::{AiTraceLog, TRACE_CAPACITY};
use hassan::{genesis_block, Block};

fn hex(b: &[u8]) -> String {
    hassan::bytes::hex_encode(b)
}

fn child() -> Block {
    let mut b = genesis_block();
    b.height = 1;
    b.parents = vec![hassan::genesis_hash()];
    b
}

#[test]
fn events_are_numbered_and_fingerprinted_over_their_payload() {
    let mut log = AiTraceLog::new();
    let b = child();
    log.record("block_accepted", Some(&b), "{\"height\":1}", 1234);
    log.record("note \"quoted\"", None, "{}", 1235);
    assert_eq!(log.next_seq, 2);
    let e = &log.events[0];
    assert_eq!(e.seq, 0);
    assert_eq!(e.timestamp_ms, 1234);
    assert_eq!(e.block_hash, Some(hex(&b.hash().0)));
    assert_eq!(e.settlement_id, Some(b.settlement_id().to_hex()));
    assert_eq!(e.birth_ok, Some(false));
    let mut m = serde_json::Map::new();
    m.insert("seq".to_string(), serde_json::Value::from(0u64));
    m.insert("event".to_string(), serde_json::Value::from("block_accepted"));
    m.insert("block_hash".to_string(), serde_json::Value::from(hex(&b.hash().0)));
    m.insert("settlement_id".to_string(), serde_json::Value::from(b.settlement_id().to_hex()));
    m.insert("birth_ok".to_string(), serde_json::Value::from(false));
    let mut d = serde_json::Map::new();
    d.insert("height".to_string(), serde_json::Value::from(1u64));
    m.insert("detail".to_string(), serde_json::Value::Object(d));
    let payload = serde_json::Value::Object(m).to_string();
    assert_eq!(e.event_digest512, hex(&hassan::hash::digest512(b"ai-trace", payload.as_bytes())));
    let mut m2 = serde_json::Map::new();
    m2.insert("seq".to_string(), serde_json::Value::from(1u64));
    m2.insert("event".to_string(), serde_json::Value::from("note \"quoted\""));
    m2.insert("block_hash".to_string(), serde_json::Value::Null);
    m2.insert("settlement_id".to_string(), serde_json::Value::Null);
    m2.insert("birth_ok".to_string(), serde_json::Value::Null);
    m2.insert("detail".to_string(), serde_json::Value::Object(serde_json::Map::new()));
    let payload2 = serde_json::Value::Object(m2).to_string();
    assert_eq!(log.events[1].event_digest512, hex(&hassan::hash::digest512(b"ai-trace", payload2.as_bytes())));
}

#[test]
fn recent_and_per_block_views() {
    let mut log = AiTraceLog::new();
    let b = child();
    log.record("a", Some(&b), "{}", 1);
    log.record("b", None, "{}", 2);
    log.record("c", Some(&b), "{}", 3);
    let r = log.recent(2);
    assert_eq!(r.iter().map(|e| e.event.clone()).collect::<Vec<_>>(), vec!["b", "c"]);
    assert_eq!(log.recent(10).len(), 3);
    let f = log.for_block(&hex(&b.hash().0));
    assert_eq!(f.iter().map(|e| e.seq).collect::<Vec<_>>(), vec![0, 2]);
    assert!(log.for_block("00").is_empty());
}

#[test]
fn tip_digest_covers_every_fingerprint_in_order() {
    let mut log = AiTraceLog::new();
    let empty = log.tip_digest512();
    assert_eq!(empty, hex(&hassan::hash::digest512(b"ai-trace-tip", &[])));
    log.record("a", None, "{}", 1);
    log.record("b", None, "{}", 2);
    let mut input = Vec::new();
    for e in &log.events {
        input.extend_from_slice(e.event_digest512.as_bytes());
    }
    assert_eq!(log.tip_digest512(), hex(&hassan::hash::digest512(b"ai-trace-tip", &input)));
    assert_ne!(log.tip_digest512(), empty);
}

#[test]
fn trace_keeps_the_newest_events() {
    let mut log = AiTraceLog::new();
    for i in 0..(TRACE_CAPACITY as u64 + 5) {
        log.record("e", None, "{}", i);
    }
    assert_eq!(log.events.len(), TRACE_CAPACITY);
    assert_eq!(log.events[0].seq, 5);
    assert_eq!(log.next_seq, TRACE_CAPACITY as u64 + 5);
}
