use chrono::{TimeZone, Utc};
use flate2::read::GzDecoder;
use indicator_engine::outbox::{
    build_publish_headers, bundle_indicators, cached_payload, drain_step, gc_goes_on,
    gzip_json_value, identity_json_publish_payload, is_slow_batch, json_to_field_table,
    normalize_payload_encoding, packed_payload, plan_payload, rebuilt_payload, record_outcome,
    CachedBundlePayloadRow, DrainStep, OutboxRow, PayloadError, PayloadPlan, PublishOutcome,
    PublishPayload,
};
use indicator_engine::publisher::{
    gzip_json_bytes, stable_uuid, IndPublisher, IndicatorSnapshotRow, PublishError,
};
use indicator_engine::relay::{
    fanout_refusal, fanout_start, fanout_step, is_slow_relay, made_progress, orphaned_outbox_ids,
    relayed_count, sources, symbol_upper, FanoutStep, SourcedRow,
};
use lapin::types::{AMQPValue, LongString};
use serde_json::Value;
use std::io::Read;

const NOW: &str = "2026-03-21T03:00:07+00:00";

fn publisher() -> IndPublisher {
    IndPublisher::new("amq.ind".to_string(), "indicator-engine-test".to_string())
}

fn minute() -> i64 {
    Utc.with_ymd_and_hms(2026, 3, 21, 3, 0, 0).unwrap().timestamp_micros()
}

fn snapshot(payload: &str) -> IndicatorSnapshotRow {
    IndicatorSnapshotRow {
        indicator_code: "orderbook_depth".to_string(),
        window_code: "15m".to_string(),
        payload_json: payload.to_string(),
    }
}

fn parse(text: &str) -> Value {
    serde_json::from_str(text).expect("json")
}

fn unpacked(bytes: &[u8]) -> Value {
    let mut decoder = GzDecoder::new(bytes);
    let mut raw = Vec::new();
    decoder.read_to_end(&mut raw).expect("decode gzip body");
    serde_json::from_slice(&raw).expect("parse decompressed json")
}

#[test]
fn snapshot_message_id_is_stable_for_same_payload() {
    let publisher = publisher();
    let row = snapshot("{\"imbalance\": 0.42}");
    let left = publisher.build_snapshot_message(minute(), "BTCUSDT", &row, NOW).unwrap();
    let right = publisher
        .build_snapshot_message(minute(), "BTCUSDT", &row, "2026-03-21T03:00:08+00:00")
        .unwrap();

    assert_eq!(left.message_id, right.message_id);
    assert_eq!(left.routing_key, "evt.orderbook_depth.btcusdt");
    assert_eq!(parse(&left.payload_json)["window_code"], "15m");
}

#[test]
fn snapshot_message_id_ignores_the_case_of_the_symbol() {
    let row = snapshot("{\"imbalance\": 0.42}");
    let left = publisher().build_snapshot_message(minute(), "BTCUSDT", &row, NOW).unwrap();
    let other = IndPublisher::new("amq.other".to_string(), "another-instance".to_string());
    let right = other.build_snapshot_message(minute(), "btcusdt", &row, NOW).unwrap();
    assert_eq!(left.message_id, right.message_id);
    let later = publisher().build_snapshot_message(minute() + 60_000_000, "BTCUSDT", &row, NOW);
    assert_ne!(left.message_id, later.unwrap().message_id);
}

#[test]
fn snapshot_message_id_changes_when_payload_changes() {
    let publisher = publisher();
    let before = snapshot("{\"imbalance\": 0.42}");
    let after = snapshot("{\"imbalance\": 0.73}");
    let left = publisher.build_snapshot_message(minute(), "BTCUSDT", &before, NOW).unwrap();
    let right = publisher.build_snapshot_message(minute(), "BTCUSDT", &after, NOW).unwrap();

    assert_ne!(left.message_id, right.message_id);
}

#[test]
fn snapshot_message_holds_every_member() {
    let row = snapshot("{\"imbalance\": 0.42}");
    let msg = publisher().build_snapshot_message(minute(), "btcUSDT", &row, NOW).unwrap();
    assert_eq!(msg.exchange_name, "amq.ind");
    assert_eq!(msg.schema_version, 1);
    assert_eq!(
        uuid::Uuid::from_u128(msg.message_id).to_string(),
        "0ca544f7-fde8-5c0b-806f-7dec2e0360da"
    );
    let document = parse(&msg.payload_json);
    assert_eq!(document["schema_version"], 1);
    assert_eq!(document["msg_type"], "ind.snapshot");
    assert_eq!(document["message_id"], "0ca544f7-fde8-5c0b-806f-7dec2e0360da");
    assert_eq!(document["trace_id"], "9b200458-7464-58de-b158-bf8fe52ec107");
    assert_eq!(document["routing_key"], "evt.orderbook_depth.btcusdt");
    assert_eq!(document["indicator_code"], "orderbook_depth");
    assert_eq!(document["symbol"], "btcUSDT");
    assert_eq!(document["event_ts"], "2026-03-21T03:00:00+00:00");
    assert_eq!(document["published_at"], NOW);
    assert_eq!(document["producer"]["service"], "indicator_engine");
    assert_eq!(document["producer"]["instance_id"], "indicator-engine-test");
    assert_eq!(document["data"], parse(&row.payload_json));
    assert_eq!(document.as_object().map(|members| members.len()), Some(12));
    let headers = parse(&msg.headers_json);
    assert_eq!(headers["schema_version"], 1);
    assert_eq!(headers["producer_service"], "indicator_engine");
    assert_eq!(headers["producer_instance_id"], "indicator-engine-test");
}

#[test]
fn snapshot_message_refuses_what_is_no_json() {
    let refused = publisher().build_snapshot_message(minute(), "BTCUSDT", &snapshot("{"), NOW);
    assert_eq!(refused.err(), Some(PublishError::NoJson));
}

#[test]
fn an_instant_without_a_date_is_refused() {
    let far = publisher().build_snapshot_message(i64::MAX, "BTCUSDT", &snapshot("{}"), NOW);
    assert_eq!(far.err(), Some(PublishError::NoDate));
    let bundle = publisher().build_minute_bundle_outbox_message(i64::MAX, "BTCUSDT", "{}", 0, NOW);
    assert_eq!(bundle.err(), Some(PublishError::NoDate));
}

const INDICATORS: &str = "{\"footprint\": {\"window_code\": \"1m\", \"payload\": {\"levels\": [1, \
                          2, 3], \"window_total_qty\": 10.0}}}";

#[test]
fn minute_bundle_outbox_payload_round_trips() {
    let msg = publisher()
        .build_minute_bundle_outbox_message(minute(), "BTCUSDT", INDICATORS, 1, NOW)
        .unwrap();
    assert_eq!(msg.payload_encoding, "gzip");

    let decoded = unpacked(&msg.payload_bytes);
    assert_eq!(decoded["msg_type"], "ind.minute_bundle");
    assert_eq!(decoded["symbol"], "BTCUSDT");
    assert_eq!(decoded["indicators"], parse(INDICATORS));
    assert_eq!(decoded["indicator_count"], 1);
    assert_eq!(decoded["message_id"], "37b0e545-f093-597d-bea5-aeef7aec3a79");
    assert_eq!(uuid::Uuid::from_u128(msg.message_id).to_string(), "37b0e545-f093-597d-bea5-aeef7aec3a79");
    assert_eq!(msg.routing_key, "bundle.1m.btcusdt");
    assert_eq!(msg.symbol, "BTCUSDT");
    let stub = parse(&msg.payload_json);
    assert_eq!(stub["window_code"], "1m");
    assert_eq!(stub["ts_bucket"], "2026-03-21T03:00:00+00:00");
    assert_eq!(stub.as_object().map(|members| members.len()), Some(5));
}

#[test]
fn minute_bundle_message_carries_the_document() {
    let msg = publisher()
        .build_minute_bundle_message(minute(), "BTCUSDT", INDICATORS, 1, NOW)
        .unwrap();
    let document = parse(&msg.payload_json);
    assert_eq!(document["indicators"], parse(INDICATORS));
    assert_eq!(document["published_at"], NOW);
    assert_eq!(document["window_code"], "1m");
    assert_eq!(msg.routing_key, "bundle.1m.btcusdt");
}

#[test]
fn bundle_identity_does_not_depend_on_when_it_is_published() {
    let publisher = publisher();
    let left = publisher
        .build_minute_bundle_payload(minute(), "BTCUSDT", INDICATORS, 1, NOW)
        .unwrap();
    let right = publisher
        .build_minute_bundle_payload(minute(), "btcusdt", INDICATORS, 1, "later")
        .unwrap();
    assert_eq!(left.message_id, right.message_id);
    assert_eq!(left.trace_id, right.trace_id);
    assert_ne!(left.message_id, left.trace_id);
}

#[test]
fn a_bundle_that_was_not_packed_is_refused() {
    let publisher = publisher();
    let payload = publisher
        .build_minute_bundle_payload(minute(), "BTCUSDT", INDICATORS, 1, NOW)
        .unwrap();
    let refused = publisher.bundle_outbox_message(payload, minute(), "BTCUSDT", "date", 1, None);
    assert_eq!(refused.err(), Some(PublishError::NotPacked));
}

#[test]
fn gzip_json_bytes_preserves_payload() {
    let payload = "{\"msg_type\": \"ind.minute_bundle\", \"indicators\": {\"footprint\": \
                   {\"window_code\": \"1m\", \"payload\": {\"levels\": [1,2,3]}}}}";
    let compressed = gzip_json_bytes(payload).unwrap();
    assert_eq!(unpacked(&compressed), parse(payload));
}

#[test]
fn names_make_ids() {
    assert_eq!(stable_uuid("message", "a"), stable_uuid("message", "a"));
    assert_ne!(stable_uuid("message", "a"), stable_uuid("trace", "a"));
    assert_ne!(stable_uuid("message", "a"), stable_uuid("message", "b"));
}

#[test]
fn gzip_json_value_round_trips_and_marks_gzip_encoding() {
    let payload = "{\"msg_type\": \"ind.minute_bundle\", \"symbol\": \"BTCUSDT\", \
                   \"indicators\": {\"footprint\": {\"payload\": {\"levels\": [1, 2, 3]}}}}";
    let encoded = gzip_json_value(payload).expect("gzip payload");
    assert_eq!(encoded.content_encoding.as_deref(), Some("gzip"));
    assert_eq!(unpacked(&encoded.body), parse(payload));
    let decoded = encoded.decoded().expect("decoded body");
    let read: Value = serde_json::from_slice(&decoded).expect("json");
    assert_eq!(read, parse(payload));
}

#[test]
fn payloads_read_as_their_document() {
    let plain = identity_json_publish_payload("{\"b\": 1, \"a\": [true, null]}").expect("payload");
    assert_eq!(plain.content_encoding, None);
    assert_eq!(plain.body, b"{\"a\":[true,null],\"b\":1}".to_vec());
    assert_eq!(plain.decoded(), Some(plain.body.clone()));
    let packed = gzip_json_value("{\"b\": 1, \"a\": [true, null]}").expect("payload");
    assert_eq!(packed.decoded(), Some(plain.body.clone()));
    let broken =
        PublishPayload { body: vec![1, 2, 3], content_encoding: Some("gzip".to_string()) };
    assert_eq!(broken.decoded(), None);
    assert_eq!(gzip_json_value("[").err(), Some(PayloadError::NoJson));
    assert_eq!(identity_json_publish_payload("nul").err(), Some(PayloadError::NoJson));
    assert_eq!(packed_payload(None).err(), Some(PayloadError::NotPacked));
}

#[test]
fn numbers_and_texts_come_back_as_they_went() {
    for x in [94.52706955539223, 0.1 + 0.2, 1e-7, 5e-324, f64::MAX, -123456.789012345] {
        let text = format!("{{\"x\": {x:?}}}");
        let payload = identity_json_publish_payload(&text).expect("payload");
        let read: Value = serde_json::from_slice(&payload.body).expect("json");
        assert_eq!(read["x"].as_f64(), Some(x));
        let message = publisher()
            .build_snapshot_message(minute(), "BTCUSDT", &snapshot(&text), NOW)
            .expect("message");
        assert!(message.payload_json.contains(&read["x"].to_string()));
        assert_eq!(find(&parse(&message.payload_json), "x").and_then(Value::as_f64), Some(x));
    }
    let symbol = "a\"b\\c\n\t\u{8}\u{c}\r\u{1f}\u{e9}/";
    let message = publisher()
        .build_snapshot_message(minute(), symbol, &snapshot("{}"), NOW)
        .expect("message");
    assert!(message.headers_json.contains("\\u001f") || message.payload_json.contains("\\u001f"));
    let read = parse(&message.payload_json);
    assert_eq!(find(&read, "symbol").and_then(Value::as_str), Some(symbol));
}

fn find<'a>(value: &'a Value, name: &str) -> Option<&'a Value> {
    match value {
        Value::Object(members) => {
            members.get(name).or_else(|| members.values().find_map(|v| find(v, name)))
        }
        _ => None,
    }
}

#[test]
fn normalize_payload_encoding_accepts_identity_and_gzip() {
    assert_eq!(normalize_payload_encoding("").expect("identity"), None);
    assert_eq!(normalize_payload_encoding("identity").expect("identity"), None);
    assert_eq!(normalize_payload_encoding("gzip").expect("gzip"), Some("gzip".to_string()));
    assert_eq!(normalize_payload_encoding("X-GZIP").expect("x-gzip"), Some("gzip".to_string()));
}

#[test]
fn normalize_payload_encoding_refuses_other_names() {
    assert_eq!(normalize_payload_encoding("  Identity\u{a0}").expect("identity"), None);
    let refused = normalize_payload_encoding(" zstd").err().expect("error");
    assert_eq!(refused, PayloadError::UnsupportedEncoding(" zstd".to_string()));
    assert_eq!(refused.message(), "unsupported indicator bundle payload encoding:  zstd");
}

#[test]
fn build_publish_headers_adds_content_encoding_header() {
    let headers =
        build_publish_headers("{\"schema\": \"v1\"}", Some("gzip")).expect("build headers");
    assert!(headers.contains_key("schema"));
    assert!(headers.contains_key("content_encoding"));
}

#[test]
fn headers_keep_flags_and_turn_the_rest_into_text() {
    let headers = json_to_field_table(
        "{\"t\": true, \"n\": 1.5, \"s\": \"x\", \"z\": null, \"a\": [1, 2], \"o\": {\"k\": 1}}",
    )
    .expect("headers");
    let text = |t: &str| Some(AMQPValue::LongString(LongString::from(t)));
    let get = |name: &str| {
        headers.inner().iter().find(|(key, _)| key.as_str() == name).map(|(_, value)| value.clone())
    };
    assert_eq!(get("t"), Some(AMQPValue::Boolean(true)));
    assert_eq!(get("n"), text("1.5"));
    assert_eq!(get("s"), text("x"));
    assert_eq!(get("z"), text(""));
    assert_eq!(get("a"), text("[1,2]"));
    assert_eq!(get("o"), text("{\"k\":1}"));
    assert_eq!(headers.inner().len(), 6);
    assert!(json_to_field_table("[1]").is_none());
    assert!(json_to_field_table("{").is_none());
    let none = build_publish_headers("{}", None).expect("headers");
    assert!(!none.contains_key("content_encoding"));
}

fn row() -> OutboxRow {
    OutboxRow {
        outbox_id: 7,
        symbol: Some("btcusdt".to_string()),
        ts_bucket: Some(minute()),
        indicator_count: Some(2),
        payload_json: "{\"msg_type\": \"ind.minute_bundle\"}".to_string(),
    }
}

#[test]
fn a_row_with_its_document_is_ready() {
    let mut whole = row();
    whole.payload_json = "{\"msg_type\": \"x\", \"indicators\": {\"a\": 1}}".to_string();
    match plan_payload(&whole).expect("plan") {
        PayloadPlan::Ready(payload) => {
            assert_eq!(payload.content_encoding.as_deref(), Some("gzip"));
            assert_eq!(unpacked(&payload.body), parse(&whole.payload_json));
        }
        PayloadPlan::LookUp { .. } => panic!("the row has its document"),
    }
}

#[test]
fn a_row_without_its_document_is_looked_up() {
    match plan_payload(&row()).expect("plan") {
        PayloadPlan::LookUp { symbol, stored_symbol, ts_bucket } => {
            assert_eq!(symbol, "btcusdt");
            assert_eq!(stored_symbol, "BTCUSDT");
            assert_eq!(ts_bucket, minute());
        }
        PayloadPlan::Ready(_) => panic!("the row has no document"),
    }
    let mut nameless = row();
    nameless.symbol = None;
    assert_eq!(plan_payload(&nameless).err(), Some(PayloadError::MissingSymbol));
    let mut timeless = row();
    timeless.ts_bucket = None;
    assert_eq!(plan_payload(&timeless).err(), Some(PayloadError::MissingTsBucket));
    assert_eq!(PayloadError::MissingSymbol.message(), "outbox row missing symbol");
}

#[test]
fn the_stub_of_a_bundle_names_its_minute() {
    for ts in [minute(), minute() + 123_456, -1, 0] {
        let message = publisher()
            .build_minute_bundle_outbox_message(ts, "ethUSDT", "{}", 3, NOW)
            .expect("bundle");
        let mut stub = row();
        stub.symbol = None;
        stub.ts_bucket = None;
        stub.payload_json = message.payload_json;
        assert_eq!(
            plan_payload(&stub),
            Ok(PayloadPlan::LookUp {
                symbol: "ethUSDT".to_string(),
                stored_symbol: "ETHUSDT".to_string(),
                ts_bucket: ts,
            })
        );
    }
}

#[test]
fn header_fields_of_a_message() {
    let message = publisher()
        .build_snapshot_message(minute(), "BTCUSDT", &snapshot("{}"), NOW)
        .expect("message");
    let headers = build_publish_headers(&message.headers_json, Some("gzip")).expect("headers");
    let text = |t: &str| AMQPValue::LongString(LongString::from(t));
    let found: Vec<(String, AMQPValue)> =
        headers.inner().iter().map(|(k, v)| (k.to_string(), v.clone())).collect();
    assert_eq!(
        found,
        vec![
            ("content_encoding".to_string(), text("gzip")),
            ("producer_instance_id".to_string(), text("indicator-engine-test")),
            ("producer_service".to_string(), text("indicator_engine")),
            ("schema_version".to_string(), text("1")),
        ]
    );
}

#[test]
fn cached_rows_keep_their_bytes() {
    let cached = cached_payload(CachedBundlePayloadRow {
        payload_encoding: "X-Gzip".to_string(),
        payload_bytes: vec![1, 2],
    })
    .expect("payload");
    assert_eq!(cached.body, vec![1, 2]);
    assert_eq!(cached.content_encoding.as_deref(), Some("gzip"));
    let refused = cached_payload(CachedBundlePayloadRow {
        payload_encoding: "br".to_string(),
        payload_bytes: vec![],
    });
    assert_eq!(refused.err(), Some(PayloadError::UnsupportedEncoding("br".to_string())));
}

#[test]
fn a_bundle_is_rebuilt_from_snapshots() {
    let rows = [snapshot("{\"imbalance\": 0.42}")];
    let payload =
        rebuilt_payload(&publisher(), "BTCUSDT", minute(), None, &rows, NOW).expect("payload");
    let document = unpacked(&payload.body);
    assert_eq!(document["indicator_count"], 1);
    assert_eq!(document["indicators"]["orderbook_depth"]["window_code"], "15m");
    assert_eq!(document["indicators"]["orderbook_depth"]["payload"], parse("{\"imbalance\": 0.42}"));
    let counted =
        rebuilt_payload(&publisher(), "BTCUSDT", minute(), Some(-3), &rows, NOW).expect("payload");
    assert_eq!(unpacked(&counted.body)["indicator_count"], 0);
    let empty = rebuilt_payload(&publisher(), "BTCUSDT", minute(), None, &[], NOW);
    let missing = empty.err().expect("nothing to send");
    assert_eq!(
        missing.message(),
        "no snapshot rows found for symbol=BTCUSDT ts_bucket=2026-03-21 03:00:00 UTC"
    );
    let ts_bucket = minute();
    assert_eq!(
        missing,
        PayloadError::NoSnapshotRows { symbol: "BTCUSDT".to_string(), ts_bucket }
    );
    let broken = rebuilt_payload(&publisher(), "BTCUSDT", minute(), None, &[snapshot("{")], NOW);
    assert_eq!(broken.err(), Some(PayloadError::NoJson));
    let late = rebuilt_payload(&publisher(), "BTCUSDT", i64::MAX, None, &rows, NOW);
    assert_eq!(late.err(), Some(PayloadError::NoDate));
    assert_eq!(bundle_indicators(&rows).expect("indicators").len(), 1);
}

#[test]
fn outcomes_are_recorded() {
    let mut sent = Vec::new();
    assert_eq!(record_outcome(&mut sent, 7, &PublishOutcome::Ack), None);
    assert_eq!(
        record_outcome(&mut sent, 8, &PublishOutcome::Nack { returned: true }),
        Some("broker nack for outbox_id=8 returned=true".to_string())
    );
    assert_eq!(
        record_outcome(&mut sent, -9, &PublishOutcome::Nack { returned: false }),
        Some("broker nack for outbox_id=-9 returned=false".to_string())
    );
    assert_eq!(
        record_outcome(&mut sent, 9, &PublishOutcome::NotRequested),
        Some("publisher confirm not requested on channel".to_string())
    );
    assert_eq!(
        record_outcome(&mut sent, 9, &PublishOutcome::Failed("gone".to_string())),
        Some("gone".to_string())
    );
    assert_eq!(sent, vec![7]);
}

#[test]
fn draining_stops_at_the_cap() {
    assert_eq!(drain_step(0, 32, true), DrainStep::Continue);
    assert_eq!(drain_step(0, 32, false), DrainStep::Stop);
    assert_eq!(drain_step(31, 32, true), DrainStep::StopAtCap);
    assert!(gc_goes_on(0, 10_000) && gc_goes_on(1, 10_001));
    assert!(!gc_goes_on(0, 9_999) && !gc_goes_on(2, 10_000));
    assert!(is_slow_batch(1_000, 0) && is_slow_batch(0, 2_000) && !is_slow_batch(999, 1_999));
}

#[test]
fn rows_without_their_intent_are_orphaned() {
    let rows = [
        SourcedRow { outbox_id: 1, source_intent_id: Some(10), message_id: 100 },
        SourcedRow { outbox_id: 2, source_intent_id: Some(11), message_id: 101 },
        SourcedRow { outbox_id: 3, source_intent_id: None, message_id: 102 },
        SourcedRow { outbox_id: 4, source_intent_id: None, message_id: 103 },
    ];
    let found = sources(&rows);
    assert_eq!(found.intent_ids, vec![10, 11]);
    assert_eq!(orphaned_outbox_ids(&rows, &[10], &[102]), vec![2, 4]);
    assert_eq!(orphaned_outbox_ids(&rows, &[10, 11], &[102, 103]), Vec::<i64>::new());
}

#[test]
fn relay_and_fanout_decisions() {
    assert_eq!(relayed_count(5, 3), 5);
    assert_eq!(relayed_count(2, 3), 3);
    assert!(made_progress(false, true, false) && !made_progress(false, false, false));
    assert!(is_slow_relay(2_000) && !is_slow_relay(1_999));
    assert_eq!(fanout_start(None), 0);
    assert_eq!(fanout_start(Some(5)), 5);
    assert_eq!(symbol_upper("btcusdt"), "BTCUSDT");
    assert_eq!(fanout_refusal(&PublishOutcome::Ack), None);
    assert_eq!(
        fanout_refusal(&PublishOutcome::NotRequested),
        Some("snapshot fanout publisher confirm not requested".to_string())
    );
    assert_eq!(
        fanout_step(&[PublishOutcome::Ack, PublishOutcome::Ack]),
        FanoutStep::Advance { sent: 2 }
    );
    assert_eq!(
        fanout_step(&[PublishOutcome::Ack, PublishOutcome::Nack { returned: false }]),
        FanoutStep::Fail("snapshot fanout broker nack returned=false".to_string())
    );
}

#[test]
fn case_mapping_reaches_beyond_ascii() {
    let row = snapshot("{}");
    let msg = publisher().build_snapshot_message(minute(), "ÄB", &row, NOW).unwrap();
    assert_eq!(msg.routing_key, "evt.orderbook_depth.äb");
    assert_eq!(symbol_upper("straße"), "STRASSE");
}
